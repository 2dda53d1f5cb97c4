//! Properties of the protocol that span its steps.
use vstd::prelude::*;
use vstd::arithmetic::div_mod::*;
use vstd::arithmetic::power2::*;
use crate::L;
use crate::encoding::{length_prefixed, u64_be};
use crate::issuance::{issued_token, ParamsModel, PreIssuanceModel, ResponseModel, TokenModel};
use crate::params::{counter_hash_input, domain_prefix, domain_separator, params_for_domain};
use crate::hash::blake3_xof64;
use crate::point::ristretto_from_uniform;
use crate::encoding::u32_le;
use crate::scalar::{add_mod, group_order, mul_mod};
use crate::spend::{
    bit_of,
    lemma_pow2_l,
    bits_model,
    prerefund_model,
    refunded_token,
    spend_proof_model,
    weighted_scalar_sum,
    RefundModel,
    SpendNoncesModel,
};
use crate::transcript::{flatten, label_bytes, transcript_header, Label};

verus! {

/// A token issued for `c` credits holds `c` credits, under the identifier
/// and blinding factor that the client chose.
pub proof fn law_issued_token_holds_issued_credits(pre: PreIssuanceModel, resp: ResponseModel)
    ensures
        issued_token(pre, resp).c == resp.c,
        issued_token(pre, resp).k == pre.k,
        issued_token(pre, resp).r == pre.r,
{
}

/// Spending `s` credits of a token that holds `c >= s` credits, then
/// accepting the issuer's refund, leaves a token of exactly `c - s`
/// credits, whatever nonces and refund were used.
pub proof fn law_spend_leaves_remaining_balance(
    t: TokenModel,
    s: nat,
    n: SpendNoncesModel,
    refund: RefundModel,
)
    requires
        s <= t.c,
        t.c < group_order(),
    ensures
        refunded_token(prerefund_model(t, s, n), refund).c == t.c - s,
{
    lemma_small_mod((t.c - s) as nat, group_order());
}

/// A spend proof reveals the identifier of the spent token as its
/// nullifier, and the charge; the token refunded afterwards carries the
/// fresh identifier chosen while spending, not the spent one.
pub proof fn law_spend_reveals_nullifier_and_charge(
    t: TokenModel,
    p: ParamsModel,
    s: nat,
    n: SpendNoncesModel,
    refund: RefundModel,
)
    ensures
        spend_proof_model(t, p, s, n).k == t.k,
        spend_proof_model(t, p, s, n).s == s,
        refunded_token(prerefund_model(t, s, n), refund).k == n.k_star,
{
}

proof fn lemma_bits_prefix(m: nat, k: nat)
    requires
        k <= L,
    ensures
        weighted_scalar_sum(bits_model(m), k) == m % pow2(k),
    decreases k,
{
    lemma2_to64();
    if k == 0 {
        assert(m % 1 == 0);
    } else {
        let j: nat = (k - 1) as nat;
        lemma_bits_prefix(m, j);
        let prev: nat = m % pow2(j);
        let bit: nat = bit_of(m, j);
        assert(bits_model(m)[j as int] == bit);
        lemma_pow2_pos(j);
        lemma_pow2_adds(j, 1);
        if j + 1 < L {
            lemma_pow2_strictly_increases(j + 1, L as nat);
        }
        lemma_pow2_l();
        lemma_mod_bound(m as int, pow2(j) as int);
        lemma_mod_bound((m / pow2(j)) as int, 2);
        lemma_breakdown(m as int, pow2(j) as int, 2);
        assert(bit * pow2(j) <= pow2(j)) by (nonlinear_arith)
            requires
                bit <= 1,
        ;
        lemma_small_mod(bit * pow2(j), group_order());
        assert(mul_mod(bit, pow2(j)) == bit * pow2(j));
        lemma_small_mod(prev + bit * pow2(j), group_order());
        assert(add_mod(prev, mul_mod(bit, pow2(j))) == prev + bit * pow2(j));
        assert(pow2(j) * bit == bit * pow2(j)) by (nonlinear_arith);
    }
}

/// The bits that a spend proof commits to are the binary digits of the
/// remaining balance: each is zero or one, and their weighted sum is the
/// balance modulo `2^L`, which is the balance itself when it is below
/// `2^L`.
pub proof fn law_committed_bits_encode_balance(m: nat)
    ensures
        forall|j: int| 0 <= j < L ==> #[trigger] bits_model(m)[j] <= 1,
        weighted_scalar_sum(bits_model(m), L as nat) == m % pow2(L as nat),
        m < pow2(L as nat) ==> weighted_scalar_sum(bits_model(m), L as nat) == m,
{
    lemma_bits_prefix(m, L as nat);
    if m < pow2(L as nat) {
        lemma_small_mod(m, pow2(L as nat));
    }
}

/// No byte of the string is a colon.
pub open spec fn colon_free(s: Seq<u8>) -> bool {
    forall|i: int| 0 <= i < s.len() ==> s[i] != 58u8
}

proof fn lemma_split_at_colon(x: Seq<u8>, y: Seq<u8>, x2: Seq<u8>, y2: Seq<u8>)
    requires
        colon_free(x),
        colon_free(x2),
        x + seq![58u8] + y == x2 + seq![58u8] + y2,
    ensures
        x == x2,
        y == y2,
{
    let a = x + seq![58u8] + y;
    let b = x2 + seq![58u8] + y2;
    if x.len() < x2.len() {
        assert(a[x.len() as int] == 58u8);
        assert(b[x.len() as int] == x2[x.len() as int]);
    }
    if x2.len() < x.len() {
        assert(b[x2.len() as int] == 58u8);
        assert(a[x2.len() as int] == x[x2.len() as int]);
    }
    assert(x.len() == x2.len());
    assert(x =~= a.subrange(0, x.len() as int));
    assert(x2 =~= b.subrange(0, x.len() as int));
    assert(y =~= a.subrange(x.len() as int + 1, a.len() as int));
    assert(y2 =~= b.subrange(x.len() as int + 1, b.len() as int));
}

/// Deployments whose organization, service and deployment names hold no
/// colon get distinct domain separators, so `Params::new` derives their
/// generators from distinct inputs.
pub proof fn law_domain_separator_injective(
    organization: Seq<u8>,
    service: Seq<u8>,
    deployment_id: Seq<u8>,
    version: Seq<u8>,
    organization2: Seq<u8>,
    service2: Seq<u8>,
    deployment_id2: Seq<u8>,
    version2: Seq<u8>,
)
    requires
        colon_free(organization),
        colon_free(service),
        colon_free(deployment_id),
        colon_free(organization2),
        colon_free(service2),
        colon_free(deployment_id2),
        domain_separator(organization, service, deployment_id, version) == domain_separator(
            organization2,
            service2,
            deployment_id2,
            version2,
        ),
    ensures
        organization == organization2,
        service == service2,
        deployment_id == deployment_id2,
        version == version2,
{
    let c = seq![58u8];
    let rest3 = deployment_id + c + version;
    let rest2 = service + c + rest3;
    let rest1 = organization + c + rest2;
    let rest3b = deployment_id2 + c + version2;
    let rest2b = service2 + c + rest3b;
    let rest1b = organization2 + c + rest2b;
    let d1 = domain_separator(organization, service, deployment_id, version);
    let d2 = domain_separator(organization2, service2, deployment_id2, version2);
    assert(d1 =~= domain_prefix() + rest1);
    assert(d2 =~= domain_prefix() + rest1b);
    assert(rest1 =~= d1.subrange(7, d1.len() as int));
    assert(rest1b =~= d2.subrange(7, d2.len() as int));
    lemma_split_at_colon(organization, rest2, organization2, rest2b);
    lemma_split_at_colon(service, rest3, service2, rest3b);
    lemma_split_at_colon(deployment_id, version, deployment_id2, version2);
}

/// The hashed input of a transcript determines its messages: two lists of
/// 32-byte messages that concatenate to the same bytes are the same list.
pub proof fn law_transcript_messages_determined(i1: Seq<Seq<u8>>, i2: Seq<Seq<u8>>)
    requires
        forall|j: int| 0 <= j < i1.len() ==> (#[trigger] i1[j]).len() == 32,
        forall|j: int| 0 <= j < i2.len() ==> (#[trigger] i2[j]).len() == 32,
        flatten(i1) == flatten(i2),
    ensures
        i1 == i2,
    decreases i1.len(),
{
    lemma_flatten_len(i1);
    lemma_flatten_len(i2);
    if i1.len() > 0 {
        assert(i2.len() > 0);
        let f1 = flatten(i1.drop_last());
        let f2 = flatten(i2.drop_last());
        lemma_flatten_len(i1.drop_last());
        lemma_flatten_len(i2.drop_last());
        let f = flatten(i1);
        assert(f1 =~= f.subrange(0, f1.len() as int));
        assert(f2 =~= f.subrange(0, f1.len() as int));
        assert(i1.last() =~= f.subrange(f1.len() as int, f.len() as int));
        assert(i2.last() =~= f.subrange(f1.len() as int, f.len() as int));
        law_transcript_messages_determined(i1.drop_last(), i2.drop_last());
        assert(i1 =~= i1.drop_last().push(i1.last()));
        assert(i2 =~= i2.drop_last().push(i2.last()));
    } else {
        assert(i2.len() == 0);
        assert(i1 =~= i2);
    }
}

proof fn lemma_flatten_len(items: Seq<Seq<u8>>)
    requires
        forall|j: int| 0 <= j < items.len() ==> (#[trigger] items[j]).len() == 32,
    ensures
        flatten(items).len() == 32 * items.len(),
    decreases items.len(),
{
    if items.len() > 0 {
        lemma_flatten_len(items.drop_last());
    }
}

/// Transcripts of different protocol steps hash different inputs, whatever
/// the parameters and messages: a challenge of one step is never the
/// challenge of another step's transcript.
pub proof fn law_transcripts_separate_steps(
    p1: ParamsModel,
    l1: Label,
    i1: Seq<Seq<u8>>,
    p2: ParamsModel,
    l2: Label,
    i2: Seq<Seq<u8>>,
)
    requires
        l1 != l2,
    ensures
        transcript_header(p1, l1) + flatten(i1) != transcript_header(p2, l2) + flatten(i2),
{
    let a = transcript_header(p1, l1) + flatten(i1);
    let b = transcript_header(p2, l2) + flatten(i2);
    let la = length_prefixed(label_bytes(l1));
    let lb = length_prefixed(label_bytes(l2));
    assert(a =~= la + (p1.0 + p1.1 + p1.2 + flatten(i1)));
    assert(b =~= lb + (p2.0 + p2.1 + p2.2 + flatten(i2)));
    assert(7u64 as u8 == 7u8) by (bit_vector);
    assert(6u64 as u8 == 6u8) by (bit_vector);
    assert(5u64 as u8 == 5u8) by (bit_vector);
    assert(a[7] == la[7]);
    assert(b[7] == lb[7]);
    assert(la[7] == u64_be(label_bytes(l1).len() as u64)[7]);
    assert(lb[7] == u64_be(label_bytes(l2).len() as u64)[7]);
    if label_bytes(l1).len() == label_bytes(l2).len() {
        assert(a[11] == la[11]);
        assert(b[11] == lb[11]);
        assert(la[11] == label_bytes(l1)[3]);
        assert(lb[11] == label_bytes(l2)[3]);
    }
}

/// `Params::new` derives its three generators `h1`, `h2`, `h3` by hashing
/// the domain separator and its seed with the counters 0, 1 and 2, in that
/// order; the three hashed byte strings are pairwise distinct, as they
/// differ in the counter byte.
pub proof fn law_params_generators_use_counters_in_order(ds: Seq<u8>)
    ensures
        params_for_domain(ds).0 == ristretto_from_uniform(blake3_xof64(counter_hash_input(ds, 0))),
        params_for_domain(ds).1 == ristretto_from_uniform(blake3_xof64(counter_hash_input(ds, 1))),
        params_for_domain(ds).2 == ristretto_from_uniform(blake3_xof64(counter_hash_input(ds, 2))),
        counter_hash_input(ds, 0) != counter_hash_input(ds, 1),
        counter_hash_input(ds, 0) != counter_hash_input(ds, 2),
        counter_hash_input(ds, 1) != counter_hash_input(ds, 2),
{
    let seed = crate::params::seed_of(ds);
    assert(crate::params::generator_input(ds, seed, 0) =~= counter_hash_input(ds, 0));
    assert(crate::params::generator_input(ds, seed, 1) =~= counter_hash_input(ds, 1));
    assert(crate::params::generator_input(ds, seed, 2) =~= counter_hash_input(ds, 2));
    let i0 = counter_hash_input(ds, 0);
    let i1 = counter_hash_input(ds, 1);
    let i2 = counter_hash_input(ds, 2);
    let n = i0.len() - 4;
    assert(u32_le(0)[0] == 0u8 && u32_le(1)[0] == 1u8 && u32_le(2)[0] == 2u8);
    assert(i0[n] == u32_le(0)[0]);
    assert(i1[n] == u32_le(1)[0]);
    assert(i2[n] == u32_le(2)[0]);
}

} // verus!
