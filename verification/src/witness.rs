//! The prover's secret: an index `l` into the input set and a nonzero scalar
//! `r` with `M[l] = r * G`, bound to a parameter set.

use vstd::prelude::*;
use curve25519_dalek::ristretto::RistrettoPoint;
use curve25519_dalek::scalar::Scalar;
use rand_core::CryptoRngCore;
use crate::group::point_mul;
use crate::group::s_from_u32;
use crate::group::s_invert;
use crate::group::scalar_eq;
use crate::group::scalar_from_u32;
use crate::group::scalar_invert;
use crate::group::scalar_random;
use crate::group::smul_of;
use crate::group::rng_next_u64;
use crate::group::wipe_scalar;
use crate::params::Parameters;
use crate::params::params_equal;
use crate::proofs::ProofError;

verus! {

/// A Triptych proof witness.
pub struct Witness {
    /// The parameter set the witness is bound to.
    pub params: Parameters,
    /// The secret index into the input set; below `N = n^m`.
    pub l: u32,
    /// The secret scalar; nonzero.
    pub r: Scalar,
}

impl Witness {
    /// The structural invariant every constructed witness satisfies.
    pub open spec fn wf(self) -> bool {
        &&& self.params.wf()
        &&& self.l < self.params.number
        &&& self.r != s_from_u32(0)
    }

    /// Builds a witness from an index and a scalar.
    ///
    /// Fails exactly when `l` is not below `N` or `r` is zero.
    pub fn new(params: &Parameters, l: u32, r: &Scalar) -> (res: Result<Self, ProofError>)
        requires
            params.wf(),
        ensures
            res is Ok <==> (l < params.number && *r != s_from_u32(0)),
            res is Ok ==> res->Ok_0.wf() && params_equal(res->Ok_0.params, *params)
                && res->Ok_0.l == l && res->Ok_0.r == *r,
    {
        if l >= params.get_N() {
            return Err(ProofError::InvalidParameter);
        }
        let zero = scalar_from_u32(0);
        if scalar_eq(r, &zero) {
            return Err(ProofError::InvalidParameter);
        }
        Ok(Witness { params: params.duplicate(), l, r: *r })
    }

    /// Samples a witness: `l` uniform below `N`, `r` a uniform nonzero
    /// scalar.
    pub fn random<R: CryptoRngCore>(params: &Parameters, rng: &mut R) -> (res: Witness)
        requires
            params.wf(),
        ensures
            res.wf(),
            params_equal(res.params, *params),
    {
        let number = params.get_N();
        proof {
            vstd::arithmetic::power::lemma_pow_positive(params.n as int, params.m as nat);
        }
        let l = (rng_next_u64(rng) % (number as u64)) as u32;
        let zero = scalar_from_u32(0);
        let mut r = scalar_random(rng);
        // A zero draw has probability about 2^(-252); redraw, and fall back
        // to one rather than loop forever on a broken generator.
        let mut tries: u32 = 0;
        while tries < 128
            invariant
                zero == s_from_u32(0),
            decreases 128 - tries,
        {
            if scalar_eq(&r, &zero) {
                r = scalar_random(rng);
            }
            tries = tries + 1;
        }
        if scalar_eq(&r, &zero) {
            r = scalar_from_u32(1);
        }
        Witness { params: params.duplicate(), l, r }
    }

    /// The secret index.
    pub fn get_l(&self) -> (r: u32)
        ensures
            r == self.l,
    {
        self.l
    }

    /// The secret scalar.
    pub fn get_r(&self) -> (r: &Scalar)
        ensures
            r == self.r,
    {
        &self.r
    }

    /// The parameter set the witness is bound to.
    pub fn get_params(&self) -> (r: &Parameters)
        ensures
            r == self.params,
    {
        &self.params
    }

    /// Overwrites the secret index and scalar in place.
    ///
    /// The witness holds its secrets as plain fields; a caller that is done
    /// with it releases them by wiping before dropping the value.
    pub fn wipe(&mut self)
        ensures
            final(self).l == 0,
    {
        self.l = 0;
        wipe_scalar(&mut self.r);
    }

    /// The verification key `r * G`.
    pub fn compute_verification_key(&self) -> (res: RistrettoPoint)
        ensures
            res == smul_of(self.r, self.params.g),
    {
        point_mul(&self.r, &self.params.g)
    }

    /// The linking tag `r^(-1) * U`.
    pub fn compute_linking_tag(&self) -> (res: RistrettoPoint)
        ensures
            res == smul_of(s_invert(self.r), self.params.u),
    {
        let r_inv = scalar_invert(&self.r);
        point_mul(&r_inv, &self.params.u)
    }
}

} // verus!
