//! Scalars: integers modulo the order of the Ristretto group.
//!
//! A `Scalar` holds the canonical little-endian 32-byte encoding of an
//! integer below the group order. Its view is that integer. All arithmetic
//! is done by `curve25519_dalek::Scalar`.
use vstd::prelude::*;
use vstd::arithmetic::div_mod::*;

verus! {

/// The order of the Ristretto group, `2^252 + 27742317777372353535851937790883648493`.
pub open spec fn group_order() -> nat {
    7237005577332262213973186563042994240857116359379907606001950938285454250989nat
}

/// `256^n`.
pub open spec fn pow256(n: nat) -> nat
    decreases n,
{
    if n == 0 {
        1
    } else {
        256 * pow256((n - 1) as nat)
    }
}

/// The integer whose little-endian base-256 digits are `s`.
pub open spec fn le_nat(s: Seq<u8>) -> nat
    decreases s.len(),
{
    if s.len() == 0 {
        0
    } else {
        s[0] as nat + 256 * le_nat(s.drop_first())
    }
}

/// `(a + b) mod ℓ`.
pub open spec fn add_mod(a: nat, b: nat) -> nat {
    (a + b) % group_order()
}

/// `(a - b) mod ℓ`, taken in `[0, ℓ)`.
pub open spec fn sub_mod(a: nat, b: nat) -> nat {
    ((a - b) % (group_order() as int)) as nat
}

/// `(a * b) mod ℓ`.
pub open spec fn mul_mod(a: nat, b: nat) -> nat {
    (a * b) % group_order()
}

/// `-a mod ℓ`, taken in `[0, ℓ)`.
pub open spec fn neg_mod(a: nat) -> nat {
    sub_mod(0, a)
}

/// Whether `a` has an inverse modulo `ℓ`.
pub open spec fn has_inverse(a: nat) -> bool {
    exists|b: nat| b < group_order() && #[trigger] mul_mod(a, b) == 1
}

/// The inverse of `a` modulo `ℓ` when it has one, zero otherwise.
pub open spec fn scalar_inverse(a: nat) -> nat {
    if has_inverse(a) {
        choose|b: nat| b < group_order() && #[trigger] mul_mod(a, b) == 1
    } else {
        0
    }
}

pub proof fn lemma_pow256_positive(n: nat)
    ensures
        pow256(n) > 0,
    decreases n,
{
    if n > 0 {
        lemma_pow256_positive((n - 1) as nat);
    }
}

pub proof fn lemma_pow256_monotone(m: nat, n: nat)
    requires
        m <= n,
    ensures
        pow256(m) <= pow256(n),
    decreases n,
{
    if m < n {
        lemma_pow256_monotone(m, (n - 1) as nat);
        lemma_pow256_positive((n - 1) as nat);
    }
}

pub proof fn lemma_pow256_16()
    ensures
        pow256(16) == 0x1_0000_0000_0000_0000_0000_0000_0000_0000nat,
{
    reveal_with_fuel(pow256, 17);
}

/// A little-endian number is below `256^len`.
pub proof fn lemma_le_nat_bound(s: Seq<u8>)
    ensures
        le_nat(s) < pow256(s.len()),
    decreases s.len(),
{
    if s.len() > 0 {
        let t = s.drop_first();
        lemma_le_nat_bound(t);
        let x: nat = s[0] as nat;
        let y: nat = le_nat(t);
        let p: nat = pow256(t.len());
        assert(x + 256 * y < 256 * p) by (nonlinear_arith)
            requires
                x < 256,
                y < p,
        ;
    }
}

/// The value of a concatenation of digit strings.
pub proof fn lemma_le_nat_append(a: Seq<u8>, b: Seq<u8>)
    ensures
        le_nat(a + b) == le_nat(a) + pow256(a.len()) * le_nat(b),
    decreases a.len(),
{
    if a.len() == 0 {
        assert(a + b =~= b);
        assert(pow256(0) == 1);
    } else {
        let t = a.drop_first();
        assert((a + b).drop_first() =~= t + b);
        lemma_le_nat_append(t, b);
        let x: nat = a[0] as nat;
        let y: nat = le_nat(t);
        let p: nat = pow256(t.len());
        let z: nat = le_nat(b);
        assert(pow256(a.len()) == 256 * p);
        assert(x + 256 * (y + p * z) == (x + 256 * y) + (256 * p) * z) by (nonlinear_arith);
    }
}

/// Two digit strings of the same length with the same value are equal.
pub proof fn lemma_le_nat_injective(a: Seq<u8>, b: Seq<u8>)
    requires
        a.len() == b.len(),
        le_nat(a) == le_nat(b),
    ensures
        a == b,
    decreases a.len(),
{
    if a.len() > 0 {
        let ta = a.drop_first();
        let tb = b.drop_first();
        let xa: int = a[0] as int;
        let xb: int = b[0] as int;
        let ya: int = le_nat(ta) as int;
        let yb: int = le_nat(tb) as int;
        lemma_fundamental_div_mod_converse(xa + 256 * ya, 256, ya, xa);
        lemma_fundamental_div_mod_converse(xb + 256 * yb, 256, yb, xb);
        lemma_le_nat_injective(ta, tb);
        assert(a =~= b) by {
            assert forall|i: int| 0 <= i < a.len() implies a[i] == b[i] by {
                if i > 0 {
                    assert(a[i] == ta[i - 1]);
                    assert(b[i] == tb[i - 1]);
                }
            }
        }
    }
}

/// A digit string of zeros has value zero, and only such a string does.
pub proof fn lemma_le_nat_zero(s: Seq<u8>)
    ensures
        le_nat(s) == 0 <==> (forall|i: int| 0 <= i < s.len() ==> s[i] == 0),
    decreases s.len(),
{
    if s.len() > 0 {
        let t = s.drop_first();
        lemma_le_nat_zero(t);
        if le_nat(s) == 0 {
            assert forall|i: int| 0 <= i < s.len() implies s[i] == 0 by {
                if i > 0 {
                    assert(s[i] == t[i - 1]);
                }
            }
        }
        if forall|i: int| 0 <= i < s.len() ==> s[i] == 0 {
            assert forall|i: int| 0 <= i < t.len() implies t[i] == 0 by {
                assert(t[i] == s[i + 1]);
            }
        }
    }
}

/// The little-endian base-256 digits of `n`, `len` of them.
pub open spec fn le_encode(n: nat, len: nat) -> Seq<u8>
    decreases len,
{
    if len == 0 {
        Seq::empty()
    } else {
        seq![(n % 256) as u8] + le_encode(n / 256, (len - 1) as nat)
    }
}

/// The canonical 32-byte encoding of a scalar of value `n`.
pub open spec fn scalar_encoding(n: nat) -> Seq<u8> {
    le_encode(n, 32)
}

pub proof fn lemma_le_encode(n: nat, len: nat)
    ensures
        le_encode(n, len).len() == len,
        le_nat(le_encode(n, len)) == n % pow256(len),
    decreases len,
{
    if len == 0 {
        assert(n % 1 == 0);
    } else {
        let e = le_encode(n, len);
        let rest = le_encode(n / 256, (len - 1) as nat);
        lemma_le_encode(n / 256, (len - 1) as nat);
        assert(e.drop_first() =~= rest);
        lemma_pow256_positive((len - 1) as nat);
        lemma_breakdown(n as int, 256, pow256((len - 1) as nat) as int);
    }
}

pub proof fn lemma_group_order_below_pow256_32()
    ensures
        group_order() < pow256(32),
{
    reveal_with_fuel(pow256, 33);
}

/// A 32-byte string whose value is below ℓ is the encoding of that value.
pub proof fn lemma_encoding_unique(b: Seq<u8>)
    requires
        b.len() == 32,
        le_nat(b) < group_order(),
    ensures
        b == scalar_encoding(le_nat(b)),
{
    lemma_le_encode(le_nat(b), 32);
    lemma_group_order_below_pow256_32();
    lemma_small_mod(le_nat(b), pow256(32));
    lemma_le_nat_injective(b, scalar_encoding(le_nat(b)));
}

/// The random number generator of the operating system.
#[verifier::external_type_specification]
#[verifier::external_body]
pub struct ExOsRng(rand_core::OsRng);

/// `curve25519_dalek::Scalar` addition, on canonical encodings: the
/// result is the canonical encoding of the sum modulo ℓ.
#[verifier::external_body]
fn dalek_add(a: &[u8; 32], b: &[u8; 32]) -> (r: [u8; 32])
    requires
        le_nat(a@) < group_order(),
        le_nat(b@) < group_order(),
    ensures
        le_nat(r@) == add_mod(le_nat(a@), le_nat(b@)),
{
    let x = curve25519_dalek::Scalar::from_canonical_bytes(*a).unwrap();
    let y = curve25519_dalek::Scalar::from_canonical_bytes(*b).unwrap();
    (x + y).to_bytes()
}

/// `curve25519_dalek::Scalar` subtraction: the canonical encoding of the
/// difference modulo ℓ.
#[verifier::external_body]
fn dalek_sub(a: &[u8; 32], b: &[u8; 32]) -> (r: [u8; 32])
    requires
        le_nat(a@) < group_order(),
        le_nat(b@) < group_order(),
    ensures
        le_nat(r@) == sub_mod(le_nat(a@), le_nat(b@)),
{
    let x = curve25519_dalek::Scalar::from_canonical_bytes(*a).unwrap();
    let y = curve25519_dalek::Scalar::from_canonical_bytes(*b).unwrap();
    (x - y).to_bytes()
}

/// `curve25519_dalek::Scalar` multiplication: the canonical encoding of
/// the product modulo ℓ.
#[verifier::external_body]
fn dalek_mul(a: &[u8; 32], b: &[u8; 32]) -> (r: [u8; 32])
    requires
        le_nat(a@) < group_order(),
        le_nat(b@) < group_order(),
    ensures
        le_nat(r@) == mul_mod(le_nat(a@), le_nat(b@)),
{
    let x = curve25519_dalek::Scalar::from_canonical_bytes(*a).unwrap();
    let y = curve25519_dalek::Scalar::from_canonical_bytes(*b).unwrap();
    (x * y).to_bytes()
}

/// `curve25519_dalek::Scalar` negation: the canonical encoding of `-a`
/// modulo ℓ.
#[verifier::external_body]
fn dalek_neg(a: &[u8; 32]) -> (r: [u8; 32])
    requires
        le_nat(a@) < group_order(),
    ensures
        le_nat(r@) == neg_mod(le_nat(a@)),
{
    let x = curve25519_dalek::Scalar::from_canonical_bytes(*a).unwrap();
    (-x).to_bytes()
}

/// `curve25519_dalek::Scalar::invert`: for a nonzero argument, its inverse
/// modulo the prime ℓ, which is unique; for zero, which has no inverse,
/// zero (dalek computes `x^(ℓ-2)`). The result is reduced.
#[verifier::external_body]
fn dalek_invert(a: &[u8; 32]) -> (r: [u8; 32])
    requires
        le_nat(a@) < group_order(),
    ensures
        le_nat(r@) == scalar_inverse(le_nat(a@)),
        le_nat(r@) < group_order(),
        le_nat(a@) != 0 ==> mul_mod(le_nat(a@), le_nat(r@)) == 1,
{
    let x = curve25519_dalek::Scalar::from_canonical_bytes(*a).unwrap();
    x.invert().to_bytes()
}

/// `curve25519_dalek::Scalar::from(u128)`: the encoding of the integer.
#[verifier::external_body]
fn dalek_from_u128(n: u128) -> (r: [u8; 32])
    ensures
        le_nat(r@) == n as nat,
{
    curve25519_dalek::Scalar::from(n).to_bytes()
}

/// `curve25519_dalek::Scalar::from_bytes_mod_order_wide`: reduces a
/// 512-bit little-endian integer modulo ℓ.
#[verifier::external_body]
fn dalek_from_wide(input: &[u8; 64]) -> (r: [u8; 32])
    ensures
        le_nat(r@) == le_nat(input@) % group_order(),
{
    curve25519_dalek::Scalar::from_bytes_mod_order_wide(input).to_bytes()
}

/// `curve25519_dalek::Scalar::from_canonical_bytes`, reduced to whether it
/// accepts: it accepts exactly the encodings of integers below ℓ.
#[verifier::external_body]
fn dalek_is_canonical(bytes: &[u8; 32]) -> (r: bool)
    ensures
        r == (le_nat(bytes@) < group_order()),
{
    bool::from(curve25519_dalek::Scalar::from_canonical_bytes(*bytes).is_some())
}

/// `curve25519_dalek::Scalar::random`: some scalar below ℓ, drawn from
/// the generator. Nothing else is stated of it.
#[verifier::external_body]
fn dalek_random(rng: &mut rand_core::OsRng) -> (r: [u8; 32])
    ensures
        le_nat(r@) < group_order(),
{
    curve25519_dalek::Scalar::random(rng).to_bytes()
}

/// `subtle::ConstantTimeEq::ct_eq` on byte slices, as a `u8`: one when
/// the two byte strings are equal, zero otherwise.
#[verifier::external_body]
pub(crate) fn subtle_ct_eq(a: &[u8; 32], b: &[u8; 32]) -> (r: u8)
    ensures
        r == (if a@ == b@ { 1u8 } else { 0u8 }),
{
    subtle::ConstantTimeEq::ct_eq(&a[..], &b[..]).unwrap_u8()
}

/// `subtle::ConditionallySelectable::conditional_select` for
/// `curve25519_dalek::Scalar`: `b` when `choice` is one, `a` when zero.
#[verifier::external_body]
fn dalek_select(a: &[u8; 32], b: &[u8; 32], choice: u8) -> (r: [u8; 32])
    requires
        le_nat(a@) < group_order(),
        le_nat(b@) < group_order(),
        choice <= 1,
    ensures
        r@ == (if choice == 1 { b@ } else { a@ }),
{
    let x = curve25519_dalek::Scalar::from_canonical_bytes(*a).unwrap();
    let y = curve25519_dalek::Scalar::from_canonical_bytes(*b).unwrap();
    <curve25519_dalek::Scalar as subtle::ConditionallySelectable>::conditional_select(
        &x,
        &y,
        subtle::Choice::from(choice),
    ).to_bytes()
}

/// An element of `Z/ℓZ`, held as its canonical little-endian encoding.
#[derive(Clone, Copy, Debug, PartialEq, Eq)]
pub struct Scalar {
    bytes: [u8; 32],
}

impl View for Scalar {
    type V = nat;

    open spec fn view(&self) -> nat {
        le_nat(self.bytes_of())
    }
}

impl Scalar {
    /// The 32 bytes that encode this scalar.
    pub closed spec fn bytes_of(&self) -> Seq<u8> {
        self.bytes@
    }

    /// The encoding is 32 bytes long and its value is below ℓ.
    #[verifier::type_invariant]
    pub open spec fn wf(&self) -> bool {
        &&& self.bytes_of().len() == 32
        &&& self@ < group_order()
    }

    /// The bytes of a scalar are the canonical encoding of its value.
    pub proof fn lemma_bytes_are_encoding(s: Scalar)
        requires
            s.wf(),
        ensures
            s.bytes_of() == scalar_encoding(s@),
    {
        lemma_encoding_unique(s.bytes@);
    }

    /// Two scalars with the same value are the same scalar.
    pub proof fn lemma_view_injective(a: Scalar, b: Scalar)
        requires
            a.bytes_of().len() == 32,
            b.bytes_of().len() == 32,
            a@ == b@,
        ensures
            a == b,
    {
        lemma_le_nat_injective(a.bytes@, b.bytes@);
        assert(a.bytes =~= b.bytes);
    }

    /// The scalar with the given integer value.
    pub fn from_u128(n: u128) -> (r: Scalar)
        ensures
            r@ == n as nat,
    {
        let bytes = dalek_from_u128(n);
        Scalar { bytes }
    }

    /// The scalar zero.
    pub fn zero() -> (r: Scalar)
        ensures
            r@ == 0,
    {
        Scalar::from_u128(0)
    }

    /// The scalar one.
    pub fn one() -> (r: Scalar)
        ensures
            r@ == 1,
    {
        Scalar::from_u128(1)
    }

    /// The canonical little-endian encoding of this scalar.
    pub fn to_bytes(&self) -> (r: [u8; 32])
        ensures
            r@ == self.bytes_of(),
            le_nat(r@) == self@,
    {
        self.bytes
    }

    /// The scalar encoded by `bytes`, if `bytes` encodes an integer below ℓ.
    pub fn from_canonical_bytes(bytes: [u8; 32]) -> (r: Option<Scalar>)
        ensures
            r is Some <==> le_nat(bytes@) < group_order(),
            r matches Some(s) ==> s.bytes_of() == bytes@ && s@ == le_nat(bytes@),
    {
        if dalek_is_canonical(&bytes) {
            Some(Scalar { bytes })
        } else {
            None
        }
    }

    /// The 512-bit little-endian integer `input`, reduced modulo ℓ.
    pub fn from_bytes_mod_order_wide(input: &[u8; 64]) -> (r: Scalar)
        ensures
            r@ == le_nat(input@) % group_order(),
    {
        let bytes = dalek_from_wide(input);
        Scalar { bytes }
    }

    /// A scalar drawn from the operating system's generator.
    pub fn random(rng: &mut rand_core::OsRng) -> (r: Scalar)
        ensures
            r@ < group_order(),
    {
        let bytes = dalek_random(rng);
        Scalar { bytes }
    }

    /// `self + other mod ℓ`.
    pub fn plus(&self, other: &Scalar) -> (r: Scalar)
        ensures
            r@ == add_mod(self@, other@),
    {
        proof {
            use_type_invariant(self);
            use_type_invariant(other);
        }
        let bytes = dalek_add(&self.bytes, &other.bytes);
        Scalar { bytes }
    }

    /// `self - other mod ℓ`.
    pub fn minus(&self, other: &Scalar) -> (r: Scalar)
        ensures
            r@ == sub_mod(self@, other@),
    {
        proof {
            use_type_invariant(self);
            use_type_invariant(other);
        }
        let bytes = dalek_sub(&self.bytes, &other.bytes);
        Scalar { bytes }
    }

    /// `self * other mod ℓ`.
    pub fn times(&self, other: &Scalar) -> (r: Scalar)
        ensures
            r@ == mul_mod(self@, other@),
    {
        proof {
            use_type_invariant(self);
            use_type_invariant(other);
        }
        let bytes = dalek_mul(&self.bytes, &other.bytes);
        Scalar { bytes }
    }

    /// `-self mod ℓ`.
    pub fn negated(&self) -> (r: Scalar)
        ensures
            r@ == neg_mod(self@),
    {
        proof {
            use_type_invariant(self);
        }
        let bytes = dalek_neg(&self.bytes);
        Scalar { bytes }
    }

    /// The multiplicative inverse of a nonzero scalar.
    pub fn invert(&self) -> (r: Scalar)
        ensures
            r@ == scalar_inverse(self@),
            self@ != 0 ==> mul_mod(self@, r@) == 1,
    {
        proof {
            use_type_invariant(self);
        }
        let bytes = dalek_invert(&self.bytes);
        Scalar { bytes }
    }

    /// Constant-time equality.
    pub fn ct_equals(&self, other: &Scalar) -> (r: bool)
        ensures
            r == (self@ == other@),
    {
        proof {
            use_type_invariant(self);
            use_type_invariant(other);
            if self@ == other@ {
                Scalar::lemma_view_injective(*self, *other);
            }
        }
        subtle_ct_eq(&self.bytes, &other.bytes) == 1
    }

    /// Constant-time test for zero, as a `subtle` choice: one when this
    /// scalar is zero, zero otherwise.
    pub fn ct_is_zero(&self) -> (r: u8)
        ensures
            r == (if self@ == 0 { 1u8 } else { 0u8 }),
    {
        let z = Scalar::zero();
        proof {
            use_type_invariant(self);
            use_type_invariant(&z);
            if self@ == 0 {
                Scalar::lemma_view_injective(*self, z);
            }
        }
        subtle_ct_eq(&self.bytes, &z.bytes)
    }

    /// Constant-time selection: `b` when `choice` is one, `a` when zero.
    pub fn select(a: &Scalar, b: &Scalar, choice: u8) -> (r: Scalar)
        requires
            choice <= 1,
        ensures
            r == (if choice == 1 { *b } else { *a }),
    {
        proof {
            use_type_invariant(a);
            use_type_invariant(b);
        }
        let bytes = dalek_select(&a.bytes, &b.bytes, choice);
        let r = Scalar { bytes };
        assert(r.bytes =~= (if choice == 1 { b.bytes } else { a.bytes }));
        r
    }
}

/// The value of a scalar as a `u128`, when it is below `2^128`.
pub fn scalar_to_u128(scalar: &Scalar) -> (r: Option<u128>)
    ensures
        r is Some <==> scalar@ < pow256(16),
        r matches Some(v) ==> v as nat == scalar@,
{
    proof {
        use_type_invariant(scalar);
    }
    let bytes = scalar.to_bytes();
    let ghost b = bytes@;
    let ghost lo = b.subrange(0, 16);
    let ghost hi = b.subrange(16, 32);
    proof {
        lemma_pow256_16();
        assert(b =~= lo + hi);
        lemma_le_nat_append(lo, hi);
        lemma_le_nat_bound(lo);
        lemma_le_nat_zero(hi);
        lemma_pow256_positive(16);
    }
    let mut value: u128 = 0;
    let mut i: usize = 16;
    while i > 0
        invariant
            i <= 16,
            b == bytes@,
            b.len() == 32,
            value as nat == le_nat(b.subrange(i as int, 16)),
            pow256(16) == 0x1_0000_0000_0000_0000_0000_0000_0000_0000nat,
        decreases i,
    {
        i = i - 1;
        let ghost s = b.subrange(i as int, 16);
        proof {
            assert(s.drop_first() =~= b.subrange(i + 1, 16));
            lemma_le_nat_bound(s);
            lemma_pow256_monotone(s.len(), 16);
        }
        value = value * 256 + bytes[i] as u128;
    }
    assert(b.subrange(0, 16) =~= lo);
    let mut high_zero = true;
    let mut j: usize = 16;
    while j < 32
        invariant
            16 <= j <= 32,
            b == bytes@,
            b.len() == 32,
            high_zero <==> (forall|k: int| 16 <= k < j ==> b[k] == 0),
        decreases 32 - j,
    {
        if bytes[j] != 0 {
            high_zero = false;
        }
        j = j + 1;
    }
    proof {
        assert(high_zero <==> (forall|k: int| 0 <= k < hi.len() ==> hi[k] == 0)) by {
            if high_zero {
                assert forall|k: int| 0 <= k < hi.len() implies hi[k] == 0 by {
                    assert(hi[k] == b[k + 16]);
                }
            }
            if forall|k: int| 0 <= k < hi.len() ==> hi[k] == 0 {
                assert forall|k: int| 16 <= k < 32 implies b[k] == 0 by {
                    assert(b[k] == hi[k - 16]);
                }
            }
        }
        let p: nat = pow256(16);
        let h: nat = le_nat(hi);
        assert(h > 0 ==> le_nat(lo) + p * h >= p) by (nonlinear_arith)
            requires
                p > 0,
        ;
    }
    if high_zero {
        Some(value)
    } else {
        None
    }
}

} // verus!
