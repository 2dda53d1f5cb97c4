//! System parameters: three generators of the group, derived from a
//! domain separator that identifies the deployment.
use vstd::prelude::*;
use vstd::string::StringSliceAdditionalSpecFns;
use crate::encoding::{length_prefixed, push_bytes, push_length_prefixed, push_u32_le, push_u64_be, u32_le, u64_be};
use crate::hash::{blake3_digest, blake3_hash, blake3_xof, blake3_xof64};
use crate::point::{ristretto_decodes, ristretto_from_uniform, Point};

verus! {

/// The bytes of `"ACT-v1:"`.
pub open spec fn domain_prefix() -> Seq<u8> {
    seq![65u8, 67, 84, 45, 118, 49, 58]
}

/// `"ACT-v1:{organization}:{service}:{deployment_id}:{version}"`, as bytes.
pub open spec fn domain_separator(
    organization: Seq<u8>,
    service: Seq<u8>,
    deployment_id: Seq<u8>,
    version: Seq<u8>,
) -> Seq<u8> {
    domain_prefix() + organization + seq![58u8] + service + seq![58u8] + deployment_id + seq![
        58u8,
    ] + version
}

/// The seed: the hash of the length-prefixed domain separator.
pub open spec fn seed_of(ds: Seq<u8>) -> Seq<u8> {
    blake3_digest(length_prefixed(ds))
}

/// What is hashed to derive a generator: the domain separator, the seed
/// and the counter, each preceded by its length.
pub open spec fn generator_input(ds: Seq<u8>, seed: Seq<u8>, counter: u32) -> Seq<u8> {
    length_prefixed(ds) + length_prefixed(seed) + u64_be(4) + u32_le(counter)
}

/// The generator derived from the domain separator, the seed and a counter.
pub open spec fn hashed_generator(ds: Seq<u8>, seed: Seq<u8>, counter: u32) -> Seq<u8> {
    ristretto_from_uniform(blake3_xof64(generator_input(ds, seed, counter)))
}

/// The three generators derived from a domain separator.
pub open spec fn params_for_domain(ds: Seq<u8>) -> (Seq<u8>, Seq<u8>, Seq<u8>) {
    let seed = seed_of(ds);
    (hashed_generator(ds, seed, 0), hashed_generator(ds, seed, 1), hashed_generator(ds, seed, 2))
}

/// The bytes hashed to derive the generator with the given counter from
/// the domain separator `ds`: `ds`, then the BLAKE3 digest of `ds`, each
/// preceded by its length as a big-endian `u64`, then the length 4 and the
/// counter as a little-endian `u32`.
pub open spec fn counter_hash_input(ds: Seq<u8>, counter: u32) -> Seq<u8> {
    let ds_framed = u64_be(ds.len() as u64) + ds;
    let seed = blake3_digest(ds_framed);
    ds_framed + u64_be(seed.len() as u64) + seed + u64_be(4) + u32_le(counter)
}

/// System parameters: the generators `h1`, `h2` and `h3` used in
/// commitments.
#[derive(Clone, Debug)]
pub struct Params {
    h1: Point,
    h2: Point,
    h3: Point,
}

impl View for Params {
    type V = (Seq<u8>, Seq<u8>, Seq<u8>);

    closed spec fn view(&self) -> (Seq<u8>, Seq<u8>, Seq<u8>) {
        (self.h1@, self.h2@, self.h3@)
    }
}

impl Params {
    /// The first generator.
    pub fn h1(&self) -> (r: &Point)
        ensures
            r@ == self@.0,
    {
        &self.h1
    }

    /// The second generator.
    pub fn h2(&self) -> (r: &Point)
        ensures
            r@ == self@.1,
    {
        &self.h2
    }

    /// The third generator.
    pub fn h3(&self) -> (r: &Point)
        ensures
            r@ == self@.2,
    {
        &self.h3
    }

    /// Parameters made of the three given generators.
    pub fn from_generators(h1: Point, h2: Point, h3: Point) -> (r: Params)
        ensures
            r@ == (h1@, h2@, h3@),
    {
        Params { h1, h2, h3 }
    }

    /// Parameters made of three points drawn from the generator.
    pub fn random(rng: rand_core::OsRng) -> (r: Params)
        ensures
            ristretto_decodes(r@.0),
            ristretto_decodes(r@.1),
            ristretto_decodes(r@.2),
    {
        let mut rng = rng;
        let h1 = Point::random(&mut rng);
        let h2 = Point::random(&mut rng);
        let h3 = Point::random(&mut rng);
        Params { h1, h2, h3 }
    }

    /// Deterministic parameters for the deployment that the four strings
    /// name.
    pub fn new(organization: &str, service: &str, deployment_id: &str, version: &str) -> (r:
        Params)
        ensures
            r@ == params_for_domain(
                domain_separator(
                    organization.spec_bytes(),
                    service.spec_bytes(),
                    deployment_id.spec_bytes(),
                    version.spec_bytes(),
                ),
            ),
            ({
                let ds = domain_separator(
                    organization.spec_bytes(),
                    service.spec_bytes(),
                    deployment_id.spec_bytes(),
                    version.spec_bytes(),
                );
                &&& r@.0 == ristretto_from_uniform(blake3_xof64(counter_hash_input(ds, 0)))
                &&& r@.1 == ristretto_from_uniform(blake3_xof64(counter_hash_input(ds, 1)))
                &&& r@.2 == ristretto_from_uniform(blake3_xof64(counter_hash_input(ds, 2)))
            }),
    {
        let mut ds: Vec<u8> = Vec::new();
        let prefix: [u8; 7] = [65u8, 67, 84, 45, 118, 49, 58];
        push_bytes(&mut ds, &prefix);
        push_bytes(&mut ds, organization.as_bytes());
        ds.push(58u8);
        push_bytes(&mut ds, service.as_bytes());
        ds.push(58u8);
        push_bytes(&mut ds, deployment_id.as_bytes());
        ds.push(58u8);
        push_bytes(&mut ds, version.as_bytes());
        assert(ds@ =~= domain_separator(
            organization.spec_bytes(),
            service.spec_bytes(),
            deployment_id.spec_bytes(),
            version.spec_bytes(),
        ));
        let mut seed_input: Vec<u8> = Vec::new();
        push_length_prefixed(&mut seed_input, ds.as_slice());
        assert(seed_input@ =~= length_prefixed(ds@));
        let seed = blake3_hash(seed_input.as_slice());
        let h1 = Params::hash_to_ristretto(ds.as_slice(), &seed, 0);
        let h2 = Params::hash_to_ristretto(ds.as_slice(), &seed, 1);
        let h3 = Params::hash_to_ristretto(ds.as_slice(), &seed, 2);
        proof {
            assert(generator_input(ds@, seed@, 0) =~= counter_hash_input(ds@, 0));
            assert(generator_input(ds@, seed@, 1) =~= counter_hash_input(ds@, 1));
            assert(generator_input(ds@, seed@, 2) =~= counter_hash_input(ds@, 2));
        }
        Params { h1, h2, h3 }
    }

    /// Hashes the domain separator, the seed and the counter to a point.
    fn hash_to_ristretto(ds: &[u8], seed: &[u8], counter: u32) -> (r: Point)
        ensures
            r@ == hashed_generator(ds@, seed@, counter),
    {
        let mut input: Vec<u8> = Vec::new();
        push_length_prefixed(&mut input, ds);
        push_length_prefixed(&mut input, seed);
        push_u64_be(&mut input, 4);
        push_u32_le(&mut input, counter);
        assert(input@ =~= generator_input(ds@, seed@, counter));
        let uniform = blake3_xof(input.as_slice());
        Point::from_uniform_bytes(&uniform)
    }
}

impl PartialEq for Params {
    fn eq(&self, other: &Params) -> (r: bool) {
        self.h1.ct_equals(&other.h1) && self.h2.ct_equals(&other.h2) && self.h3.ct_equals(
            &other.h2,
        )
    }
}

impl vstd::std_specs::cmp::PartialEqSpecImpl for Params {
    open spec fn obeys_eq_spec() -> bool {
        true
    }

    /// The first two generators agree, and the third generator of `self`
    /// equals the second of `other`.
    open spec fn eq_spec(&self, other: &Params) -> bool {
        &&& self@.0 == other@.0
        &&& self@.1 == other@.1
        &&& self@.2 == other@.1
    }
}

} // verus!
