//! Keys and the issuance protocol: the client commits to a fresh token
//! identifier, the issuer signs the commitment together with a credit
//! amount, and the client checks the signature and holds a credit token.
use vstd::prelude::*;
use crate::Error;
use crate::params::Params;
use crate::point::{generator_encoding, ristretto_add, ristretto_mul, ristretto_sub, Point};
use crate::scalar::{add_mod, group_order, mul_mod, neg_mod, scalar_encoding, scalar_inverse, Scalar};
use crate::transcript::{challenge_of, Label, Transcript};
use crate::algebra::is_point;
use crate::completeness::{
    honest_request,
    honest_response,
    law_honest_request_is_accepted,
    law_honest_response_is_accepted,
    token_signed,
};

verus! {

/// The generators `(h1, h2, h3)` of a `Params`.
pub type ParamsModel = (Seq<u8>, Seq<u8>, Seq<u8>);

/// The values of an `IssuanceRequest`.
pub struct RequestModel {
    pub big_k: Seq<u8>,
    pub gamma: nat,
    pub k_bar: nat,
    pub r_bar: nat,
}

/// The values of an `IssuanceResponse`.
pub struct ResponseModel {
    pub a: Seq<u8>,
    pub e: nat,
    pub gamma: nat,
    pub z: nat,
    pub c: nat,
}

/// The values of a `CreditToken`.
pub struct TokenModel {
    pub a: Seq<u8>,
    pub e: nat,
    pub k: nat,
    pub r: nat,
    pub c: nat,
}

/// The values of a `PreIssuance`.
pub struct PreIssuanceModel {
    pub r: nat,
    pub k: nat,
}

/// `P * s` for the generator `P` of the group.
pub open spec fn gen_mul(s: nat) -> Seq<u8> {
    ristretto_mul(generator_encoding(), s)
}

/// `h2 * k + h3 * r`.
pub open spec fn commit2(p: ParamsModel, k: nat, r: nat) -> Seq<u8> {
    ristretto_add(ristretto_mul(p.1, k), ristretto_mul(p.2, r))
}

/// The request that `PreIssuance::request` builds from the nonces `k'`, `r'`.
pub open spec fn request_model(p: ParamsModel, pre: PreIssuanceModel, k_prime: nat, r_prime: nat)
    -> RequestModel {
    let big_k = commit2(p, pre.k, pre.r);
    let k1 = commit2(p, k_prime, r_prime);
    let gamma: nat = challenge_of(p, Label::Request, seq![big_k, k1]);
    RequestModel {
        big_k,
        gamma,
        k_bar: add_mod(k_prime, mul_mod(pre.k, gamma)),
        r_bar: add_mod(r_prime, mul_mod(pre.r, gamma)),
    }
}

/// The commitment that the issuer recomputes from a request's responses.
pub open spec fn request_k1(p: ParamsModel, req: RequestModel) -> Seq<u8> {
    ristretto_sub(commit2(p, req.k_bar, req.r_bar), ristretto_mul(req.big_k, req.gamma))
}

/// Whether the issuer accepts the proof in an issuance request.
pub open spec fn request_is_valid(p: ParamsModel, req: RequestModel) -> bool {
    challenge_of(p, Label::Request, seq![req.big_k, request_k1(p, req)]) == req.gamma
}

/// `G + h1 * c + K`: the point that an issued signature signs.
pub open spec fn signed_point(p: ParamsModel, c: nat, big_k: Seq<u8>) -> Seq<u8> {
    ristretto_add(ristretto_add(generator_encoding(), ristretto_mul(p.0, c)), big_k)
}

/// The challenge of a signature proof over the given messages.
pub open spec fn respond_challenge(
    p: ParamsModel,
    c: nat,
    e: nat,
    a: Seq<u8>,
    x_a: Seq<u8>,
    x_g: Seq<u8>,
    y_a: Seq<u8>,
    y_g: Seq<u8>,
) -> nat {
    challenge_of(
        p,
        Label::Respond,
        seq![scalar_encoding(c), scalar_encoding(e), a, x_a, x_g, y_a, y_g],
    )
}

/// The response that `PrivateKey::issue` builds for the secret key `x`
/// with public key `w`, from the nonces `e` and `alpha`.
pub open spec fn response_model(
    x: nat,
    w: Seq<u8>,
    p: ParamsModel,
    req: RequestModel,
    c: nat,
    e: nat,
    alpha: nat,
) -> ResponseModel {
    let x_a = signed_point(p, c, req.big_k);
    let a = ristretto_mul(x_a, scalar_inverse(add_mod(e, x)));
    let x_g = ristretto_add(gen_mul(e), w);
    let y_a = ristretto_mul(a, alpha);
    let y_g = gen_mul(alpha);
    let gamma: nat = respond_challenge(p, c, e, a, x_a, x_g, y_a, y_g);
    ResponseModel { a, e, gamma, z: add_mod(mul_mod(gamma, add_mod(x, e)), alpha), c }
}

/// Whether the client accepts the issuer's response to its request, whose
/// commitment is `big_k`, under the public key `w`.
pub open spec fn response_is_valid(
    p: ParamsModel,
    w: Seq<u8>,
    big_k: Seq<u8>,
    resp: ResponseModel,
) -> bool {
    let x_a = signed_point(p, resp.c, big_k);
    let x_g = ristretto_add(gen_mul(resp.e), w);
    let y_a = ristretto_add(ristretto_mul(resp.a, resp.z), ristretto_mul(x_a, neg_mod(resp.gamma)));
    let y_g = ristretto_add(gen_mul(resp.z), ristretto_mul(x_g, neg_mod(resp.gamma)));
    respond_challenge(p, resp.c, resp.e, resp.a, x_a, x_g, y_a, y_g) == resp.gamma
}

/// The token that the client holds once the issuer's response is accepted:
/// the issuer's signature, the client's identifier and blinding factor, and
/// the issued credits.
pub open spec fn issued_token(pre: PreIssuanceModel, resp: ResponseModel) -> TokenModel {
    TokenModel { a: resp.a, e: resp.e, k: pre.k, r: pre.r, c: resp.c }
}

/// The public key of the issuer: `w = G * x`.
#[derive(Clone, Debug)]
pub struct PublicKey {
    w: Point,
}

impl View for PublicKey {
    type V = Seq<u8>;

    closed spec fn view(&self) -> Seq<u8> {
        self.w@
    }
}

impl PublicKey {
    /// The public point.
    pub fn point(&self) -> (r: &Point)
        ensures
            r@ == self@,
    {
        &self.w
    }
}

/// The private key of the issuer, with its public key.
#[derive(Debug)]
pub struct PrivateKey {
    x: Scalar,
    public: PublicKey,
}

impl View for PrivateKey {
    /// The secret scalar and the public point.
    type V = (nat, Seq<u8>);

    closed spec fn view(&self) -> (nat, Seq<u8>) {
        (self.x@, self.public@)
    }
}

impl Clone for PrivateKey {
    fn clone(&self) -> (r: PrivateKey)
        ensures
            r@ == self@,
    {
        proof {
            use_type_invariant(self);
        }
        PrivateKey { x: self.x, public: PublicKey { w: self.public.w } }
    }
}

impl PrivateKey {
    /// The public point is the generator times the secret scalar.
    #[verifier::type_invariant]
    pub open spec fn wf(&self) -> bool {
        self@.1 == gen_mul(self@.0)
    }

    /// The private key with secret scalar `x`.
    pub fn from_scalar(x: Scalar) -> (r: PrivateKey)
        ensures
            r@.0 == x@,
            r@.1 == gen_mul(x@),
    {
        let w = Point::generator().times(&x);
        PrivateKey { x, public: PublicKey { w } }
    }

    /// A private key with a secret drawn from the generator.
    pub fn random(rng: rand_core::OsRng) -> (r: PrivateKey)
        ensures
            r@.0 < group_order(),
            r@.1 == gen_mul(r@.0),
    {
        let mut rng = rng;
        let x = Scalar::random(&mut rng);
        let key = PrivateKey::from_scalar(x);
        proof {
            use_type_invariant(&key);
        }
        key
    }

    /// The public key that belongs to this private key.
    pub fn public(&self) -> (r: &PublicKey)
        ensures
            r@ == self@.1,
    {
        &self.public
    }

    /// The secret scalar.
    pub(crate) fn secret(&self) -> (r: &Scalar)
        ensures
            r@ == self@.0,
    {
        &self.x
    }

    /// Answers an issuance request for `c` credits with the nonces `e` and
    /// `alpha`: refused exactly when the request's proof does not verify.
    pub fn issue_with(
        &self,
        params: &Params,
        request: &IssuanceRequest,
        c: Scalar,
        e: Scalar,
        alpha: Scalar,
    ) -> (r: Result<IssuanceResponse, Error>)
        ensures
            r is Ok <==> request_is_valid(params@, request@),
            r matches Err(err) ==> err == Error::InvalidIssuanceRequestProof,
            r matches Ok(resp) ==> resp@ == response_model(
                self@.0,
                self@.1,
                params@,
                request@,
                c@,
                e@,
                alpha@,
            ),
            honest_request(params@, request@) ==> r is Ok,
            r matches Ok(resp) ==> (add_mod(e@, self@.0) != 0 ==> honest_response(
                params@,
                self@.0,
                request@,
                resp@,
            )),
    {
        proof {
            use_type_invariant(self);
            use_type_invariant(&c);
            use_type_invariant(&e);
            use_type_invariant(&alpha);
        }
        let g = Point::generator();
        let (h1, h2, h3) = (params.h1(), params.h2(), params.h3());
        proof {
            use_type_invariant(h1);
            use_type_invariant(h2);
            use_type_invariant(h3);
            if honest_request(params@, request@) {
                let (pre, kp, rp) = choose|pre: PreIssuanceModel, kp: nat, rp: nat|
                    pre.k < group_order() && pre.r < group_order() && kp < group_order() && rp
                        < group_order() && request@ == #[trigger] request_model(
                        params@,
                        pre,
                        kp,
                        rp,
                    );
                law_honest_request_is_accepted(params@, pre, kp, rp);
            }
        }
        let k1 = params.h2().times(&request.k_bar).plus(&params.h3().times(&request.r_bar)).minus(
            &request.big_k.times(&request.gamma),
        );
        let mut t = Transcript::new(params, Label::Request);
        t.add_element(&request.big_k);
        t.add_element(&k1);
        assert(t.items() =~= seq![request@.big_k, request_k1(params@, request@)]);
        let gamma = t.challenge();
        if !gamma.ct_equals(&request.gamma) {
            return Err(Error::InvalidIssuanceRequestProof);
        }
        let x_a = g.plus(&params.h1().times(&c)).plus(&request.big_k);
        let a = x_a.times(&e.plus(&self.x).invert());
        let x_g = g.times(&e).plus(&self.public.w);
        let y_a = a.times(&alpha);
        let y_g = g.times(&alpha);
        let mut t = Transcript::new(params, Label::Respond);
        t.add_scalar(&c);
        t.add_scalar(&e);
        t.add_element(&a);
        t.add_element(&x_a);
        t.add_element(&x_g);
        t.add_element(&y_a);
        t.add_element(&y_g);
        assert(t.items() =~= seq![
            scalar_encoding(c@),
            scalar_encoding(e@),
            a@,
            x_a@,
            x_g@,
            y_a@,
            y_g@,
        ]);
        let gamma = t.challenge();
        let z = gamma.times(&self.x.plus(&e)).plus(&alpha);
        let resp = IssuanceResponse { a, e, gamma, z, c };
        proof {
            assert(resp@ == response_model(
                self@.0,
                gen_mul(self@.0),
                params@,
                request@,
                c@,
                e@,
                alpha@,
            ));
        }
        Ok(resp)
    }

    /// Issues `c` credits in response to a request, drawing the nonces from
    /// the generator: refused exactly when the request's proof does not
    /// verify.
    pub fn issue(&self, params: &Params, request: &IssuanceRequest, c: Scalar, rng: rand_core::OsRng) -> (r:
        Result<IssuanceResponse, Error>)
        ensures
            r is Ok <==> request_is_valid(params@, request@),
            r matches Err(err) ==> err == Error::InvalidIssuanceRequestProof,
            r matches Ok(resp) ==> exists|e: nat, alpha: nat|
                e < group_order() && alpha < group_order() && resp@ == response_model(
                    self@.0,
                    self@.1,
                    params@,
                    request@,
                    c@,
                    e,
                    alpha,
                ),
            honest_request(params@, request@) ==> r is Ok,
    {
        let mut rng = rng;
        let e = Scalar::random(&mut rng);
        let alpha = Scalar::random(&mut rng);
        proof {
            use_type_invariant(&e);
            use_type_invariant(&alpha);
        }
        self.issue_with(params, request, c, e, alpha)
    }
}

/// The client's secrets while a token is being issued.
#[derive(Clone, Debug)]
pub struct PreIssuance {
    r: Scalar,
    k: Scalar,
}

impl View for PreIssuance {
    type V = PreIssuanceModel;

    closed spec fn view(&self) -> PreIssuanceModel {
        PreIssuanceModel { r: self.r@, k: self.k@ }
    }
}

impl PreIssuance {
    /// The secrets with blinding factor `r` and token identifier `k`.
    pub fn from_scalars(r: Scalar, k: Scalar) -> (p: PreIssuance)
        ensures
            p@ == (PreIssuanceModel { r: r@, k: k@ }),
    {
        PreIssuance { r, k }
    }

    /// Fresh secrets drawn from the generator.
    pub fn random(rng: rand_core::OsRng) -> (p: PreIssuance)
        ensures
            p@.r < group_order(),
            p@.k < group_order(),
    {
        let mut rng = rng;
        let r = Scalar::random(&mut rng);
        let k = Scalar::random(&mut rng);
        PreIssuance { r, k }
    }

    /// The issuance request built with the nonces `k_prime` and `r_prime`.
    pub fn request_with(&self, params: &Params, k_prime: &Scalar, r_prime: &Scalar) -> (req:
        IssuanceRequest)
        ensures
            req@ == request_model(params@, self@, k_prime@, r_prime@),
            honest_request(params@, req@),
    {
        proof {
            use_type_invariant(&self.k);
            use_type_invariant(&self.r);
            use_type_invariant(k_prime);
            use_type_invariant(r_prime);
        }
        let big_k = params.h2().times(&self.k).plus(&params.h3().times(&self.r));
        let k1 = params.h2().times(k_prime).plus(&params.h3().times(r_prime));
        let mut t = Transcript::new(params, Label::Request);
        t.add_element(&big_k);
        t.add_element(&k1);
        assert(t.items() =~= seq![big_k@, k1@]);
        let gamma = t.challenge();
        let k_bar = k_prime.plus(&self.k.times(&gamma));
        let r_bar = r_prime.plus(&self.r.times(&gamma));
        let req = IssuanceRequest { big_k, gamma, k_bar, r_bar };
        proof {
            assert(req@ == request_model(params@, self@, k_prime@, r_prime@));
            assert(self@.k < group_order() && self@.r < group_order());
        }
        req
    }

    /// An issuance request, with nonces drawn from the generator.
    pub fn request(&self, params: &Params, rng: rand_core::OsRng) -> (req: IssuanceRequest)
        ensures
            exists|k_prime: nat, r_prime: nat|
                k_prime < group_order() && r_prime < group_order() && req@ == request_model(
                    params@,
                    self@,
                    k_prime,
                    r_prime,
                ),
            honest_request(params@, req@),
    {
        let mut rng = rng;
        let k_prime = Scalar::random(&mut rng);
        let r_prime = Scalar::random(&mut rng);
        proof {
            use_type_invariant(&k_prime);
            use_type_invariant(&r_prime);
        }
        self.request_with(params, &k_prime, &r_prime)
    }

    /// The credit token made of the issuer's response, if its proof
    /// verifies under the issuer's public key.
    pub fn to_credit_token(
        &self,
        params: &Params,
        public: &PublicKey,
        request: &IssuanceRequest,
        response: &IssuanceResponse,
    ) -> (r: Result<CreditToken, Error>)
        ensures
            r is Ok <==> response_is_valid(params@, public@, request@.big_k, response@),
            r matches Err(err) ==> err == Error::InvalidIssuanceResponseProof,
            r matches Ok(token) ==> token@ == issued_token(self@, response@),
            forall|x: nat|
                x < group_order() && public@ == gen_mul(x) && is_point(request@.big_k)
                    && #[trigger] honest_response(params@, x, request@, response@) ==> {
                    &&& r is Ok
                    &&& request@.big_k == commit2(params@, self@.k, self@.r) ==> token_signed(
                        params@,
                        x,
                        issued_token(self@, response@),
                    )
                },
    {
        let g = Point::generator();
        let (h1, h2, h3) = (params.h1(), params.h2(), params.h3());
        proof {
            use_type_invariant(h1);
            use_type_invariant(h2);
            use_type_invariant(h3);
            use_type_invariant(&self.k);
            use_type_invariant(&self.r);
            assert forall|x: nat|
                x < group_order() && public@ == gen_mul(x) && is_point(request@.big_k)
                    && #[trigger] honest_response(params@, x, request@, response@) implies
                response_is_valid(params@, public@, request@.big_k, response@) && (request@.big_k
                    == commit2(params@, self@.k, self@.r) ==> token_signed(
                    params@,
                    x,
                    issued_token(self@, response@),
                )) by {
                let (c, e, alpha) = choose|c: nat, e: nat, alpha: nat|
                    c < group_order() && e < group_order() && alpha < group_order() && add_mod(e, x)
                        != 0 && response@ == #[trigger] response_model(
                        x,
                        gen_mul(x),
                        params@,
                        request@,
                        c,
                        e,
                        alpha,
                    );
                law_honest_response_is_accepted(x, params@, request@, self@, c, e, alpha);
            }
        }
        let x_a = g.plus(&params.h1().times(&response.c)).plus(&request.big_k);
        let x_g = g.times(&response.e).plus(&public.w);
        let minus_gamma = response.gamma.negated();
        let y_a = response.a.times(&response.z).plus(&x_a.times(&minus_gamma));
        let y_g = g.times(&response.z).plus(&x_g.times(&minus_gamma));
        let mut t = Transcript::new(params, Label::Respond);
        t.add_scalar(&response.c);
        t.add_scalar(&response.e);
        t.add_element(&response.a);
        t.add_element(&x_a);
        t.add_element(&x_g);
        t.add_element(&y_a);
        t.add_element(&y_g);
        assert(t.items() =~= seq![
            scalar_encoding(response@.c),
            scalar_encoding(response@.e),
            response@.a,
            x_a@,
            x_g@,
            y_a@,
            y_g@,
        ]);
        let gamma = t.challenge();
        if !gamma.ct_equals(&response.gamma) {
            return Err(Error::InvalidIssuanceResponseProof);
        }
        Ok(CreditToken { a: response.a, e: response.e, r: self.r, k: self.k, c: response.c })
    }
}

/// The request that a client sends to the issuer.
#[derive(Clone, Debug)]
pub struct IssuanceRequest {
    big_k: Point,
    gamma: Scalar,
    k_bar: Scalar,
    r_bar: Scalar,
}

impl View for IssuanceRequest {
    type V = RequestModel;

    closed spec fn view(&self) -> RequestModel {
        RequestModel { big_k: self.big_k@, gamma: self.gamma@, k_bar: self.k_bar@, r_bar: self.r_bar@ }
    }
}

impl IssuanceRequest {
    /// The request with the given commitment, challenge and responses.
    pub fn from_parts(big_k: Point, gamma: Scalar, k_bar: Scalar, r_bar: Scalar) -> (r:
        IssuanceRequest)
        ensures
            r@ == (RequestModel { big_k: big_k@, gamma: gamma@, k_bar: k_bar@, r_bar: r_bar@ }),
    {
        IssuanceRequest { big_k, gamma, k_bar, r_bar }
    }
}

/// The issuer's response to an issuance request.
#[derive(Clone, Debug, PartialEq)]
pub struct IssuanceResponse {
    a: Point,
    e: Scalar,
    gamma: Scalar,
    z: Scalar,
    c: Scalar,
}

impl View for IssuanceResponse {
    type V = ResponseModel;

    closed spec fn view(&self) -> ResponseModel {
        ResponseModel { a: self.a@, e: self.e@, gamma: self.gamma@, z: self.z@, c: self.c@ }
    }
}

/// A credit token: a signature on the token's identifier, blinding factor
/// and credit amount.
#[derive(Clone, Debug, PartialEq)]
pub struct CreditToken {
    a: Point,
    e: Scalar,
    k: Scalar,
    r: Scalar,
    c: Scalar,
}

impl View for CreditToken {
    type V = TokenModel;

    closed spec fn view(&self) -> TokenModel {
        TokenModel { a: self.a@, e: self.e@, k: self.k@, r: self.r@, c: self.c@ }
    }
}

impl CreditToken {
    /// The token made of the given signature and secrets.
    pub(crate) fn from_parts(a: Point, e: Scalar, k: Scalar, r: Scalar, c: Scalar) -> (t:
        CreditToken)
        ensures
            t@ == (TokenModel { a: a@, e: e@, k: k@, r: r@, c: c@ }),
    {
        CreditToken { a, e, k, r, c }
    }

    /// The token's identifier, which spending it reveals.
    pub fn nullifier(&self) -> (r: Scalar)
        ensures
            r@ == self@.k,
    {
        self.k
    }

    /// The number of credits the token holds.
    pub fn credits(&self) -> (r: Scalar)
        ensures
            r@ == self@.c,
    {
        self.c
    }

    pub(crate) fn sig_point(&self) -> (r: &Point)
        ensures
            r@ == self@.a,
    {
        &self.a
    }

    pub(crate) fn sig_scalar(&self) -> (r: &Scalar)
        ensures
            r@ == self@.e,
    {
        &self.e
    }

    pub(crate) fn blinding(&self) -> (r: &Scalar)
        ensures
            r@ == self@.r,
    {
        &self.r
    }
}

} // verus!
