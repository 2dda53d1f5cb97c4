//! Elements of the Ristretto group, held as their canonical encodings.
//!
//! The Ristretto encoding is canonical: two points are equal exactly when
//! their 32-byte encodings are. A `Point` holds an encoding that
//! `curve25519_dalek` decodes; every group operation decodes its arguments,
//! operates on `curve25519_dalek::RistrettoPoint` and encodes the result.
use vstd::prelude::*;
use crate::scalar::{add_mod, group_order, has_inverse, le_nat, mul_mod, sub_mod, subtle_ct_eq, Scalar};

verus! {

/// Whether `curve25519_dalek::CompressedRistretto::decompress` accepts the
/// 32 bytes, i.e. whether they are the canonical encoding of a point.
pub uninterp spec fn ristretto_decodes(enc: Seq<u8>) -> bool;

/// The encoding of the sum of two encoded points, as computed by
/// `curve25519_dalek::RistrettoPoint` addition.
pub uninterp spec fn ristretto_add(a: Seq<u8>, b: Seq<u8>) -> Seq<u8>;

/// The encoding of the difference of two encoded points, as computed by
/// `curve25519_dalek::RistrettoPoint` subtraction.
pub uninterp spec fn ristretto_sub(a: Seq<u8>, b: Seq<u8>) -> Seq<u8>;

/// The encoding of an encoded point multiplied by a scalar of the given
/// value, as computed by `RistrettoPoint * Scalar` in `curve25519_dalek`.
pub uninterp spec fn ristretto_mul(p: Seq<u8>, s: nat) -> Seq<u8>;

/// The encoding of the point that
/// `curve25519_dalek::RistrettoPoint::from_uniform_bytes` maps 64 bytes to.
pub uninterp spec fn ristretto_from_uniform(bytes: Seq<u8>) -> Seq<u8>;

/// The encoding of the identity element: 32 zero bytes.
pub open spec fn identity_encoding() -> Seq<u8> {
    Seq::new(32, |i: int| 0u8)
}

/// The encoding of the Ristretto basepoint, the generator of the group.
pub open spec fn generator_encoding() -> Seq<u8> {
    seq![
        0xe2u8, 0xf2, 0xae, 0x0a, 0x6a, 0xbc, 0x4e, 0x71, 0xa8, 0x84, 0xa9, 0x61, 0xc5, 0x00, 0x51,
        0x5f, 0x58, 0xe3, 0x0b, 0x6a, 0xa5, 0x82, 0xdd, 0x8d, 0xb6, 0xa6, 0x59, 0x45, 0xe0, 0x8d,
        0x2d, 0x76,
    ]
}

/// The group structure that the Ristretto encodings stand for, seen through
/// the point `g`: `g` generates the group, which has prime order `ℓ`. Each
/// decodable encoding is `g * a` for exactly one `a < ℓ`; sums, differences
/// and multiples of such points are `g` times the sums, differences and
/// products of the exponents modulo `ℓ`; `g * 0` is the identity and
/// `g * 1` is `g`; and, `ℓ` being prime, every nonzero scalar has an
/// inverse modulo `ℓ`.
#[verifier::opaque]
pub open spec fn generates_prime_order_group(g: Seq<u8>) -> bool {
    &&& forall|a: nat|
        a < group_order() ==> (#[trigger] ristretto_mul(g, a)).len() == 32 && ristretto_decodes(
            ristretto_mul(g, a),
        )
    &&& forall|pt: Seq<u8>|
        pt.len() == 32 && #[trigger] ristretto_decodes(pt) ==> exists|a: nat|
            a < group_order() && pt == #[trigger] ristretto_mul(g, a)
    &&& forall|a: nat, b: nat|
        #![trigger ristretto_mul(g, a), ristretto_mul(g, b)]
        a < group_order() && b < group_order() && ristretto_mul(g, a) == ristretto_mul(g, b)
            ==> a == b
    &&& forall|a: nat, b: nat|
        a < group_order() && b < group_order() ==> #[trigger] ristretto_add(
            ristretto_mul(g, a),
            ristretto_mul(g, b),
        ) == ristretto_mul(g, add_mod(a, b))
    &&& forall|a: nat, b: nat|
        a < group_order() && b < group_order() ==> #[trigger] ristretto_sub(
            ristretto_mul(g, a),
            ristretto_mul(g, b),
        ) == ristretto_mul(g, sub_mod(a, b))
    &&& forall|a: nat, s: nat|
        a < group_order() && s < group_order() ==> #[trigger] ristretto_mul(ristretto_mul(g, a), s)
            == ristretto_mul(g, mul_mod(a, s))
    &&& ristretto_mul(g, 0) == identity_encoding()
    &&& ristretto_mul(g, 1) == g
    &&& forall|a: nat| 0 < a < group_order() ==> #[trigger] has_inverse(a)
}

/// `CompressedRistretto::decompress(..).is_some()` of `curve25519_dalek`.
#[verifier::external_body]
fn dalek_decodes(enc: &[u8; 32]) -> (r: bool)
    ensures
        r == ristretto_decodes(enc@),
{
    curve25519_dalek::ristretto::CompressedRistretto(*enc).decompress().is_some()
}

/// `curve25519_dalek` point addition on encodings. The sum is encoded by
/// `compress`, whose output `decompress` accepts.
#[verifier::external_body]
fn dalek_point_add(a: &[u8; 32], b: &[u8; 32]) -> (r: [u8; 32])
    requires
        ristretto_decodes(a@),
        ristretto_decodes(b@),
    ensures
        r@ == ristretto_add(a@, b@),
        ristretto_decodes(r@),
{
    let x = curve25519_dalek::ristretto::CompressedRistretto(*a).decompress().unwrap();
    let y = curve25519_dalek::ristretto::CompressedRistretto(*b).decompress().unwrap();
    (x + y).compress().to_bytes()
}

/// `curve25519_dalek` point subtraction on encodings.
#[verifier::external_body]
fn dalek_point_sub(a: &[u8; 32], b: &[u8; 32]) -> (r: [u8; 32])
    requires
        ristretto_decodes(a@),
        ristretto_decodes(b@),
    ensures
        r@ == ristretto_sub(a@, b@),
        ristretto_decodes(r@),
{
    let x = curve25519_dalek::ristretto::CompressedRistretto(*a).decompress().unwrap();
    let y = curve25519_dalek::ristretto::CompressedRistretto(*b).decompress().unwrap();
    (x - y).compress().to_bytes()
}

/// `RistrettoPoint * Scalar` of `curve25519_dalek`, on encodings.
#[verifier::external_body]
fn dalek_point_mul(p: &[u8; 32], s: &[u8; 32]) -> (r: [u8; 32])
    requires
        ristretto_decodes(p@),
        le_nat(s@) < group_order(),
    ensures
        r@ == ristretto_mul(p@, le_nat(s@)),
        ristretto_decodes(r@),
{
    let x = curve25519_dalek::ristretto::CompressedRistretto(*p).decompress().unwrap();
    let k = curve25519_dalek::Scalar::from_canonical_bytes(*s).unwrap();
    (x * k).compress().to_bytes()
}

/// `RistrettoPoint::from_uniform_bytes` of `curve25519_dalek`, encoded.
#[verifier::external_body]
fn dalek_from_uniform(bytes: &[u8; 64]) -> (r: [u8; 32])
    ensures
        r@ == ristretto_from_uniform(bytes@),
        ristretto_decodes(r@),
{
    curve25519_dalek::RistrettoPoint::from_uniform_bytes(bytes).compress().to_bytes()
}

/// `group::Group::generator` for `curve25519_dalek::RistrettoPoint`, which
/// is the Ristretto basepoint, encoded. The basepoint generates the
/// Ristretto group, whose order is the prime `ℓ` (as `curve25519_dalek`
/// documents the group and its scalars), with the group structure that
/// `generates_prime_order_group` spells out.
#[verifier::external_body]
fn group_generator() -> (r: [u8; 32])
    ensures
        r@ == generator_encoding(),
        ristretto_decodes(r@),
        generates_prime_order_group(r@),
{
    <curve25519_dalek::RistrettoPoint as group::Group>::generator().compress().to_bytes()
}

/// `Identity::identity` for `curve25519_dalek::RistrettoPoint`, encoded:
/// the identity's canonical encoding is 32 zero bytes.
#[verifier::external_body]
fn dalek_identity() -> (r: [u8; 32])
    ensures
        r@ == identity_encoding(),
        ristretto_decodes(r@),
{
    <curve25519_dalek::RistrettoPoint as curve25519_dalek::traits::Identity>::identity().compress().to_bytes()
}

/// `curve25519_dalek::RistrettoPoint::random`, encoded: some point. Nothing
/// else is stated of it.
#[verifier::external_body]
fn dalek_point_random(rng: &mut rand_core::OsRng) -> (r: [u8; 32])
    ensures
        ristretto_decodes(r@),
{
    curve25519_dalek::RistrettoPoint::random(rng).compress().to_bytes()
}

/// `subtle::ConditionallySelectable::conditional_select` for
/// `curve25519_dalek::RistrettoPoint`: the point `b` when `choice` is one,
/// `a` when zero. Since the encoding is canonical, the encoding of the
/// selected point is the encoding that was passed in.
#[verifier::external_body]
fn dalek_point_select(a: &[u8; 32], b: &[u8; 32], choice: u8) -> (r: [u8; 32])
    requires
        ristretto_decodes(a@),
        ristretto_decodes(b@),
        choice <= 1,
    ensures
        r@ == (if choice == 1 { b@ } else { a@ }),
{
    let x = curve25519_dalek::ristretto::CompressedRistretto(*a).decompress().unwrap();
    let y = curve25519_dalek::ristretto::CompressedRistretto(*b).decompress().unwrap();
    <curve25519_dalek::RistrettoPoint as subtle::ConditionallySelectable>::conditional_select(
        &x,
        &y,
        subtle::Choice::from(choice),
    ).compress().to_bytes()
}

/// `MultiscalarMul::multiscalar_mul` of `curve25519_dalek` on two points,
/// encoded: `p * a + q * b`, computed in constant time.
#[verifier::external_body]
fn dalek_double_mul(a: &[u8; 32], p: &[u8; 32], b: &[u8; 32], q: &[u8; 32]) -> (r: [u8; 32])
    requires
        ristretto_decodes(p@),
        ristretto_decodes(q@),
        le_nat(a@) < group_order(),
        le_nat(b@) < group_order(),
    ensures
        r@ == ristretto_add(ristretto_mul(p@, le_nat(a@)), ristretto_mul(q@, le_nat(b@))),
        ristretto_decodes(r@),
{
    let x = curve25519_dalek::ristretto::CompressedRistretto(*p).decompress().unwrap();
    let y = curve25519_dalek::ristretto::CompressedRistretto(*q).decompress().unwrap();
    let s = curve25519_dalek::Scalar::from_canonical_bytes(*a).unwrap();
    let t = curve25519_dalek::Scalar::from_canonical_bytes(*b).unwrap();
    <curve25519_dalek::RistrettoPoint as curve25519_dalek::traits::MultiscalarMul>::multiscalar_mul(
        [s, t],
        [x, y],
    ).compress().to_bytes()
}

/// An element of the Ristretto group, held as its canonical encoding.
#[derive(Clone, Copy, Debug, PartialEq, Eq)]
pub struct Point {
    enc: [u8; 32],
}

impl View for Point {
    type V = Seq<u8>;

    open spec fn view(&self) -> Seq<u8> {
        self.enc_of()
    }
}

impl Point {
    /// The 32 bytes that encode this point.
    pub closed spec fn enc_of(&self) -> Seq<u8> {
        self.enc@
    }

    /// The encoding is 32 bytes long and decodes to a point.
    #[verifier::type_invariant]
    pub open spec fn wf(&self) -> bool {
        &&& self@.len() == 32
        &&& ristretto_decodes(self@)
    }

    /// The identity element.
    pub fn identity() -> (r: Point)
        ensures
            r@ == identity_encoding(),
    {
        Point { enc: dalek_identity() }
    }

    /// The generator of the group (the Ristretto basepoint).
    pub fn generator() -> (r: Point)
        ensures
            r@ == generator_encoding(),
            generates_prime_order_group(r@),
    {
        Point { enc: group_generator() }
    }

    /// The canonical encoding of this point.
    pub fn to_bytes(&self) -> (r: [u8; 32])
        ensures
            r@ == self@,
    {
        self.enc
    }

    /// The point encoded by `enc`, if `enc` is the canonical encoding of a
    /// point.
    pub fn from_bytes(enc: [u8; 32]) -> (r: Option<Point>)
        ensures
            r is Some <==> ristretto_decodes(enc@),
            r matches Some(p) ==> p@ == enc@,
    {
        if dalek_decodes(&enc) {
            Some(Point { enc })
        } else {
            None
        }
    }

    /// The point that the hash-to-group map takes 64 bytes to.
    pub fn from_uniform_bytes(bytes: &[u8; 64]) -> (r: Point)
        ensures
            r@ == ristretto_from_uniform(bytes@),
    {
        Point { enc: dalek_from_uniform(bytes) }
    }

    /// A point drawn from the operating system's generator.
    pub fn random(rng: &mut rand_core::OsRng) -> (r: Point)
        ensures
            ristretto_decodes(r@),
    {
        Point { enc: dalek_point_random(rng) }
    }

    /// `self + other`.
    pub fn plus(&self, other: &Point) -> (r: Point)
        ensures
            r@ == ristretto_add(self@, other@),
    {
        proof {
            use_type_invariant(self);
            use_type_invariant(other);
        }
        Point { enc: dalek_point_add(&self.enc, &other.enc) }
    }

    /// `self - other`.
    pub fn minus(&self, other: &Point) -> (r: Point)
        ensures
            r@ == ristretto_sub(self@, other@),
    {
        proof {
            use_type_invariant(self);
            use_type_invariant(other);
        }
        Point { enc: dalek_point_sub(&self.enc, &other.enc) }
    }

    /// `self * s`.
    pub fn times(&self, s: &Scalar) -> (r: Point)
        ensures
            r@ == ristretto_mul(self@, s@),
    {
        proof {
            use_type_invariant(self);
            use_type_invariant(s);
        }
        let bytes = s.to_bytes();
        Point { enc: dalek_point_mul(&self.enc, &bytes) }
    }

    /// Constant-time equality.
    pub fn ct_equals(&self, other: &Point) -> (r: bool)
        ensures
            r == (self@ == other@),
    {
        subtle_ct_eq(&self.enc, &other.enc) == 1
    }

    /// Whether this is the identity element (constant time).
    pub fn is_identity(&self) -> (r: bool)
        ensures
            r == (self@ == identity_encoding()),
    {
        let id = Point::identity();
        subtle_ct_eq(&self.enc, &id.enc) == 1
    }

    /// Constant-time selection: `b` when `choice` is one, `a` when zero.
    /// `self * a + q * b`, computed together.
    pub fn times_plus_times(&self, a: &Scalar, q: &Point, b: &Scalar) -> (r: Point)
        ensures
            r@ == ristretto_add(ristretto_mul(self@, a@), ristretto_mul(q@, b@)),
    {
        proof {
            use_type_invariant(self);
            use_type_invariant(q);
            use_type_invariant(a);
            use_type_invariant(b);
        }
        let ab = a.to_bytes();
        let bb = b.to_bytes();
        Point { enc: dalek_double_mul(&ab, &self.enc, &bb, &q.enc) }
    }

    pub fn select(a: &Point, b: &Point, choice: u8) -> (r: Point)
        requires
            choice <= 1,
        ensures
            r == (if choice == 1 { *b } else { *a }),
    {
        proof {
            use_type_invariant(a);
            use_type_invariant(b);
        }
        let r = Point { enc: dalek_point_select(&a.enc, &b.enc, choice) };
        assert(r.enc =~= (if choice == 1 { b.enc } else { a.enc }));
        r
    }
}

} // verus!
