//! Anonymous Credit Tokens: an anonymous credit scheme in which an issuer
//! hands out credit tokens, clients spend them without revealing which token
//! they spend, and the issuer refunds what is left in a fresh token.
//!
//! Scalars and group elements are carried as their canonical 32-byte
//! encodings; every group and field operation is performed by
//! `curve25519-dalek`, every hash by `blake3`.
use vstd::prelude::*;

pub mod scalar;
pub mod point;
pub mod encoding;
pub mod hash;
pub mod params;
pub mod transcript;
pub mod issuance;
pub mod spend;
pub mod algebra;
pub mod laws;
pub mod completeness;

pub use scalar::{scalar_to_u128, Scalar};
pub use point::Point;
pub use params::Params;
pub use issuance::{CreditToken, IssuanceRequest, IssuanceResponse, PreIssuance, PrivateKey, PublicKey};
pub use spend::{PreRefund, Refund, SpendNonces, SpendProof};

verus! {

/// The ways in which a step of the protocol can refuse its input.
#[derive(Debug, PartialEq, Eq, Structural, Clone, Copy)]
pub enum Error {
    InvalidIssuanceRequestProof,
    InvalidIssuanceResponseProof,
    DoubleSpendError,
    InvalidRefundProof,
    InvalidRefundResponseProof,
    IdentityPointError,
    InvalidClientSpendProof,
    AmountTooBigError,
    ScalarOutOfRangeError,
}

/// The bit length used for the binary decomposition of balances in range
/// proofs: a balance must lie below `2^L`, so the largest balance that a
/// spend can leave is `2^128 - 1`.
pub const L: usize = 128;

} // verus!
