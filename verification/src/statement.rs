//! The public side of a proof: the input set `M` with its canonical digest,
//! and the statement `(Parameters, InputSet, J)`.

use vstd::prelude::*;
use curve25519_dalek::ristretto::RistrettoPoint;
use crate::group::compress_of;
use crate::group::point_compress;
use crate::params::Parameters;
use crate::params::params_equal;
use crate::proofs::ProofError;
use crate::transcript::ProofTranscript;
use crate::transcript::challenge_of;
use crate::transcript::label_bytes;
use crate::transcript::op_append;
use crate::transcript::op_append_u64;
use crate::transcript::op_domain;

verus! {

/// The digest-transcript history after the first `k` keys of `keys` have been
/// absorbed.
pub open spec fn set_history(keys: Seq<RistrettoPoint>, k: nat) -> Seq<Seq<u8>>
    decreases k,
{
    if k == 0 {
        op_domain("Triptych input set"@) + op_append_u64("len"@, keys.len() as u64)
    } else {
        set_history(keys, (k - 1) as nat) + op_append("key"@, compress_of(keys[k - 1]))
    }
}

/// The canonical 32-byte digest of an input set: a challenge over the length
/// and every compressed key, in order.
pub open spec fn spec_set_hash(keys: Seq<RistrettoPoint>) -> Seq<u8> {
    challenge_of(set_history(keys, keys.len()), label_bytes("hash"@), 32)
}

/// An ordered public set of `N` verification keys with its canonical digest.
pub struct InputSet {
    /// The verification keys.
    pub keys: Vec<RistrettoPoint>,
    /// The canonical 32-byte digest of the keys.
    pub hash: Vec<u8>,
}

impl InputSet {
    /// The digest stored is the canonical digest of the stored keys.
    pub open spec fn wf(self) -> bool {
        &&& self.hash@ == spec_set_hash(self.keys@)
        &&& self.hash@.len() == 32
    }

    /// Stores the given keys with their canonical digest.
    #[allow(non_snake_case)]
    pub fn new(M: &Vec<RistrettoPoint>) -> (r: Self)
        requires
            M@.len() <= u32::MAX,
        ensures
            r.wf(),
            r.keys@ == M@,
    {
        proof {
            reveal_strlit("Triptych input set");
            reveal_strlit("len");
            reveal_strlit("key");
            reveal_strlit("hash");
        }
        let mut t = ProofTranscript::new("Triptych input set");
        let len = M.len();
        t.append_u64("len", len as u64);
        let mut keys: Vec<RistrettoPoint> = Vec::new();
        let mut k: usize = 0;
        assert(t.history@ =~= set_history(M@, 0));
        while k < len
            invariant
                len == M@.len(),
                k <= len,
                keys@ =~= M@.take(k as int),
                t.history@ == set_history(M@, k as nat),
            decreases len - k,
        {
            proof {
                reveal_strlit("key");
            }
            let key = M[k];
            let key_bytes = point_compress(&key);
            t.append("key", key_bytes.as_slice());
            keys.push(key);
            k = k + 1;
        }
        let hash = t.challenge("hash", 32);
        proof {
            assert(keys@ =~= M@);
        }
        InputSet { keys, hash }
    }

    /// The stored keys.
    pub fn get_keys(&self) -> (r: &Vec<RistrettoPoint>)
        ensures
            r == self.keys,
    {
        &self.keys
    }

    /// The canonical digest.
    pub fn get_hash(&self) -> (r: &Vec<u8>)
        ensures
            r == self.hash,
    {
        &self.hash
    }

    /// A copy of this input set with the same stored values.
    pub fn duplicate(&self) -> (r: Self)
        ensures
            r.keys@ == self.keys@,
            r.hash@ == self.hash@,
    {
        let mut keys: Vec<RistrettoPoint> = Vec::new();
        let len = self.keys.len();
        let mut k: usize = 0;
        while k < len
            invariant
                len == self.keys@.len(),
                k <= len,
                keys@ =~= self.keys@.take(k as int),
            decreases len - k,
        {
            keys.push(self.keys[k]);
            k = k + 1;
        }
        let mut hash: Vec<u8> = Vec::new();
        let hlen = self.hash.len();
        let mut k2: usize = 0;
        while k2 < hlen
            invariant
                hlen == self.hash@.len(),
                k2 <= hlen,
                hash@ =~= self.hash@.take(k2 as int),
            decreases hlen - k2,
        {
            hash.push(self.hash[k2]);
            k2 = k2 + 1;
        }
        proof {
            assert(keys@ =~= self.keys@);
            assert(hash@ =~= self.hash@);
        }
        InputSet { keys, hash }
    }
}

/// A Triptych proof statement: parameters, input set, and linking tag.
///
/// The linking tag is stored unverified; whether it matches a witness is
/// decided by proof verification, not here.
pub struct Statement {
    /// The parameter set.
    pub params: Parameters,
    /// The input set; its length equals `N = n^m`.
    pub input_set: InputSet,
    /// The linking tag.
    pub j: RistrettoPoint,
}

impl Statement {
    /// The structural invariant every constructed statement satisfies.
    pub open spec fn wf(self) -> bool {
        &&& self.params.wf()
        &&& self.input_set.wf()
        &&& self.input_set.keys@.len() == self.params.number as nat
    }

    /// Builds a statement from parameters, an input set, and a linking tag.
    ///
    /// Fails exactly when the input set's length is not `N`.
    #[allow(non_snake_case)]
    pub fn new(params: &Parameters, input_set: &InputSet, J: &RistrettoPoint) -> (r: Result<
        Self,
        ProofError,
    >)
        requires
            params.wf(),
            input_set.wf(),
        ensures
            r is Ok <==> input_set.keys@.len() == params.number as nat,
            r is Ok ==> r->Ok_0.wf() && params_equal(r->Ok_0.params, *params)
                && r->Ok_0.input_set.keys@ == input_set.keys@
                && r->Ok_0.input_set.hash@ == input_set.hash@ && r->Ok_0.j == *J,
    {
        let len = input_set.get_keys().len();
        if len != params.get_N() as usize {
            return Err(ProofError::InvalidParameter);
        }
        Ok(Statement { params: params.duplicate(), input_set: input_set.duplicate(), j: *J })
    }

    /// The parameter set.
    pub fn get_params(&self) -> (r: &Parameters)
        ensures
            r == self.params,
    {
        &self.params
    }

    /// The input set.
    pub fn get_input_set(&self) -> (r: &InputSet)
        ensures
            r == self.input_set,
    {
        &self.input_set
    }

    /// The linking tag.
    #[allow(non_snake_case)]
    pub fn get_J(&self) -> (r: &RistrettoPoint)
        ensures
            r == self.j,
    {
        &self.j
    }
}

} // verus!
