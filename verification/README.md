# anonymous_credit_tokens

An anonymous credit scheme: an issuer hands out credit tokens, clients spend
credits without revealing which token they spend, and the issuer signs a
fresh token for the remaining balance. Written in Verus: every function of the
protocol carries a contract, and the contracts are proved.

Layout of `src/`:

- `scalar.rs` — integers modulo the group order, held as canonical 32-byte
  encodings; arithmetic through `curve25519-dalek`; `scalar_to_u128`.
- `point.rs` — Ristretto group elements, held as canonical encodings.
- `encoding.rs`, `hash.rs` — byte framing and BLAKE3.
- `transcript.rs` — Fiat-Shamir challenges.
- `params.rs` — the system generators, derived from a domain separator.
- `issuance.rs` — keys and the issuance protocol.
- `spend.rs` — spend proofs with range proofs, refunds.
- `laws.rs` — properties that span the protocol's steps.
- `algebra.rs` — computing in the group through exponents of the generator.
- `completeness.rs` — honest runs of the protocol are accepted, and every
  token that comes out carries a valid signature.

Every step that draws randomness has a twin (`*_with`) that takes the nonces
as arguments and whose contract states its result exactly.
