//! Public parameters: the group generators and the index-decomposition
//! arithmetic for base `n` and exponent `m`, with `N = n^m`.
//!
//! All generators are derived deterministically from a fixed context string
//! and `(n, m)` by hash-to-group, so two parameter sets built from the same
//! `(n, m)` agree; [`lemma_parameters_deterministic`] states that.

use vstd::prelude::*;
use curve25519_dalek::ristretto::RistrettoPoint;
use curve25519_dalek::scalar::Scalar;
use crate::digits;
use crate::group::basepoint;
use crate::group::basepoint_bytes;
use crate::group::compress_of;
use crate::group::msm_of;
use crate::group::multiscalar_mul;
use crate::group::point_compress;
use crate::group::point_from_uniform_bytes;
use crate::group::uniform_point_of;
use vstd::arithmetic::power::pow;
use crate::proofs::ProofError;
use crate::transcript::ProofTranscript;
use crate::transcript::challenge_of;
use crate::transcript::label_bytes;
use crate::transcript::op_append;
use crate::transcript::op_append_u64;
use crate::transcript::op_challenge;
use crate::transcript::op_domain;

verus! {

/// The transcript history that seeds the generator derivation for `(n, m)`.
pub open spec fn seed_history(n: u32, m: u32) -> Seq<Seq<u8>> {
    op_domain("Triptych parameters"@) + op_append_u64("n"@, n as u64) + op_append_u64(
        "m"@,
        m as u64,
    )
}

/// The derivation history after the first `k` commitment generators have been
/// drawn.
pub open spec fn gen_history(n: u32, m: u32, k: nat) -> Seq<Seq<u8>>
    decreases k,
{
    if k == 0 {
        seed_history(n, m)
    } else {
        gen_history(n, m, (k - 1) as nat) + op_challenge("G"@, 64)
    }
}

/// The `k`-th commitment generator for `(n, m)`, row-major over `(j, i)`.
pub open spec fn spec_gen(n: u32, m: u32, k: nat) -> RistrettoPoint {
    uniform_point_of(challenge_of(gen_history(n, m, k), label_bytes("G"@), 64))
}

/// The commitment blinding generator for `(n, m)`.
pub open spec fn spec_commitment_h(n: u32, m: u32) -> RistrettoPoint {
    uniform_point_of(
        challenge_of(
            gen_history(n, m, (n as nat) * (m as nat)),
            label_bytes("H"@),
            64,
        ),
    )
}

/// The linking-tag generator for `(n, m)`.
pub open spec fn spec_u(n: u32, m: u32) -> RistrettoPoint {
    uniform_point_of(
        challenge_of(
            gen_history(n, m, (n as nat) * (m as nat)) + op_challenge("H"@, 64),
            label_bytes("U"@),
            64,
        ),
    )
}

/// The history of the domain-hash transcript after the first `k` commitment
/// generators have been absorbed.
pub open spec fn hash_history(n: u32, m: u32, k: nat) -> Seq<Seq<u8>>
    decreases k,
{
    if k == 0 {
        op_domain("Triptych parameters hash"@) + op_append_u64("n"@, n as u64) + op_append_u64(
            "m"@,
            m as u64,
        ) + op_append("G"@, basepoint_bytes()) + op_append(
            "H"@,
            compress_of(spec_commitment_h(n, m)),
        ) + op_append("U"@, compress_of(spec_u(n, m)))
    } else {
        hash_history(n, m, (k - 1) as nat) + op_append(
            "CommitmentG"@,
            compress_of(spec_gen(n, m, (k - 1) as nat)),
        )
    }
}

/// The 32-byte domain hash binding `(n, m)` and every generator.
pub open spec fn spec_params_hash(n: u32, m: u32) -> Seq<u8> {
    challenge_of(hash_history(n, m, (n as nat) * (m as nat)), label_bytes("hash"@), 32)
}

/// Public parameters for proofs over an input set of `number == n^m` keys.
pub struct Parameters {
    /// The base of the index decomposition; at least 2.
    pub n: u32,
    /// The exponent of the index decomposition; at least 2.
    pub m: u32,
    /// The input-set size `n^m`.
    pub number: u32,
    /// The distinguished base point of the group.
    pub g: RistrettoPoint,
    /// The linking-tag generator.
    pub u: RistrettoPoint,
    /// The commitment blinding generator.
    pub commitment_h: RistrettoPoint,
    /// The matrix-commitment generators, row-major: entry `j * n + i` commits
    /// position `(j, i)`.
    pub commitment_g: Vec<RistrettoPoint>,
    /// The 32-byte domain hash of everything above.
    pub hash: Vec<u8>,
}

impl Parameters {
    /// The structural invariant every constructed parameter set satisfies.
    pub open spec fn wf(self) -> bool {
        &&& self.n >= 2
        &&& self.m >= 2
        &&& self.number as int == pow(self.n as int, self.m as nat)
        &&& self.commitment_g@.len() == (self.n as nat) * (self.m as nat)
        &&& self.hash@.len() == 32
    }

    /// Every field is the deterministic derivation from `(n, m)`.
    pub open spec fn derived_from(self, n: u32, m: u32) -> bool {
        &&& self.n == n
        &&& self.m == m
        &&& self.number as int == pow(n as int, m as nat)
        &&& compress_of(self.g) == basepoint_bytes()
        &&& self.commitment_g@.len() == (n as nat) * (m as nat)
        &&& forall|k: int|
            0 <= k < self.commitment_g@.len() ==> self.commitment_g@[k] == spec_gen(n, m, k as nat)
        &&& self.commitment_h == spec_commitment_h(n, m)
        &&& self.u == spec_u(n, m)
        &&& self.hash@ == spec_params_hash(n, m)
    }

    /// Builds the parameter set for base `n` and exponent `m`.
    ///
    /// Fails exactly when `n < 2`, `m < 2`, or `n^m` does not fit in 32 bits.
    pub fn new(n: u32, m: u32) -> (r: Result<Self, ProofError>)
        ensures
            r is Ok <==> (n >= 2 && m >= 2 && pow(n as int, m as nat) <= u32::MAX),
            r is Ok ==> r->Ok_0.wf() && r->Ok_0.derived_from(n, m),
    {
        if n < 2 || m < 2 {
            return Err(ProofError::InvalidParameter);
        }
        // Compute the input-set size, rejecting 32-bit overflow.
        proof {
            vstd::arithmetic::power::lemma_pow0(n as int);
        }
        let mut number: u32 = 1;
        let mut e: u32 = 0;
        while e < m
            invariant
                n >= 2,
                m >= 2,
                e <= m,
                number as int == pow(n as int, e as nat),
            decreases m - e,
        {
            number = match number.checked_mul(n) {
                Some(v) => v,
                None => {
                    proof {
                        crate::lemma_pow_step(n as int, e as nat);
                        vstd::arithmetic::power::lemma_pow_increases(
                            n as nat,
                            (e + 1) as nat,
                            m as nat,
                        );
                    }
                    return Err(ProofError::InvalidParameter);
                },
            };
            proof {
                crate::lemma_pow_step(n as int, e as nat);
            }
            e = e + 1;
        }

        // Derive the generators from the fixed context and (n, m).
        proof {
            reveal_strlit("Triptych parameters");
            reveal_strlit("n");
            reveal_strlit("m");
            reveal_strlit("G");
            reveal_strlit("H");
            reveal_strlit("U");
        }
        let g = basepoint();
        let mut t = ProofTranscript::new("Triptych parameters");
        t.append_u64("n", n as u64);
        t.append_u64("m", m as u64);
        proof {
            assert((n as int) * (m as int) <= 0xffff_ffffu64 * 0xffff_ffffu64)
                by (nonlinear_arith)
                requires n <= u32::MAX, m <= u32::MAX;
        }
        let total: u64 = (n as u64) * (m as u64);
        let mut commitment_g: Vec<RistrettoPoint> = Vec::new();
        let mut count: u64 = 0;
        assert(t.history@ =~= gen_history(n, m, 0));
        while count < total
            invariant
                count <= total,
                total as nat == (n as nat) * (m as nat),
                commitment_g@.len() == count as nat,
                forall|k: int| 0 <= k < count ==> commitment_g@[k] == spec_gen(n, m, k as nat),
                t.history@ == gen_history(n, m, count as nat),
            decreases total - count,
        {
            proof {
                reveal_strlit("G");
            }
            let bytes = t.challenge("G", 64);
            commitment_g.push(point_from_uniform_bytes(&bytes));
            proof {
                assert(t.history@ =~= gen_history(n, m, (count + 1) as nat));
            }
            count = count + 1;
        }
        let h_bytes = t.challenge("H", 64);
        let commitment_h = point_from_uniform_bytes(&h_bytes);
        proof {
            assert(t.history@ =~= gen_history(n, m, (n as nat) * (m as nat)) + op_challenge(
                "H"@,
                64,
            ));
        }
        let u_bytes = t.challenge("U", 64);
        let u = point_from_uniform_bytes(&u_bytes);

        // Bind everything into the domain hash.
        proof {
            reveal_strlit("Triptych parameters hash");
            reveal_strlit("CommitmentG");
            reveal_strlit("hash");
        }
        let mut ht = ProofTranscript::new("Triptych parameters hash");
        ht.append_u64("n", n as u64);
        ht.append_u64("m", m as u64);
        let g_bytes = point_compress(&g);
        ht.append("G", g_bytes.as_slice());
        let hh_bytes = point_compress(&commitment_h);
        ht.append("H", hh_bytes.as_slice());
        let uu_bytes = point_compress(&u);
        ht.append("U", uu_bytes.as_slice());
        assert(ht.history@ =~= hash_history(n, m, 0));
        let mut k: usize = 0;
        let len = commitment_g.len();
        while k < len
            invariant
                len == commitment_g@.len(),
                k <= len,
                forall|kk: int| 0 <= kk < len ==> commitment_g@[kk] == spec_gen(n, m, kk as nat),
                ht.history@ == hash_history(n, m, k as nat),
            decreases len - k,
        {
            proof {
                reveal_strlit("CommitmentG");
            }
            let gen = commitment_g[k];
            let gen_bytes = point_compress(&gen);
            ht.append("CommitmentG", gen_bytes.as_slice());
            proof {
                assert(ht.history@ =~= hash_history(n, m, (k + 1) as nat));
            }
            k = k + 1;
        }
        let hash = ht.challenge("hash", 32);

        Ok(Parameters { n, m, number, g, u, commitment_h, commitment_g, hash })
    }

    /// The base `n`.
    pub fn get_n(&self) -> (r: u32)
        ensures
            r == self.n,
    {
        self.n
    }

    /// The exponent `m`.
    pub fn get_m(&self) -> (r: u32)
        ensures
            r == self.m,
    {
        self.m
    }

    /// The input-set size `N = n^m`.
    #[allow(non_snake_case)]
    pub fn get_N(&self) -> (r: u32)
        ensures
            r == self.number,
    {
        self.number
    }

    /// The distinguished base point.
    #[allow(non_snake_case)]
    pub fn get_G(&self) -> (r: &RistrettoPoint)
        ensures
            r == self.g,
    {
        &self.g
    }

    /// The linking-tag generator.
    #[allow(non_snake_case)]
    pub fn get_U(&self) -> (r: &RistrettoPoint)
        ensures
            r == self.u,
    {
        &self.u
    }

    /// The commitment blinding generator.
    #[allow(non_snake_case)]
    pub fn get_CommitmentH(&self) -> (r: &RistrettoPoint)
        ensures
            r == self.commitment_h,
    {
        &self.commitment_h
    }

    /// The matrix-commitment generators, row-major over `(j, i)`.
    #[allow(non_snake_case)]
    pub fn get_CommitmentG(&self) -> (r: &Vec<RistrettoPoint>)
        ensures
            r == self.commitment_g,
    {
        &self.commitment_g
    }

    /// The 32-byte domain hash.
    pub fn get_hash(&self) -> (r: &Vec<u8>)
        ensures
            r == self.hash,
    {
        &self.hash
    }

    /// A copy of this parameter set with the same stored values.
    pub fn duplicate(&self) -> (r: Self)
        ensures
            params_equal(r, *self),
    {
        let mut commitment_g: Vec<RistrettoPoint> = Vec::new();
        let len = self.commitment_g.len();
        let mut k: usize = 0;
        while k < len
            invariant
                len == self.commitment_g@.len(),
                k <= len,
                commitment_g@ =~= self.commitment_g@.take(k as int),
            decreases len - k,
        {
            commitment_g.push(self.commitment_g[k]);
            k = k + 1;
        }
        let mut hash: Vec<u8> = Vec::new();
        let hlen = self.hash.len();
        let mut k2: usize = 0;
        while k2 < hlen
            invariant
                hlen == self.hash@.len(),
                k2 <= hlen,
                hash@ =~= self.hash@.take(k2 as int),
            decreases hlen - k2,
        {
            hash.push(self.hash[k2]);
            k2 = k2 + 1;
        }
        proof {
            assert(commitment_g@ =~= self.commitment_g@);
            assert(hash@ =~= self.hash@);
        }
        Parameters {
            n: self.n,
            m: self.m,
            number: self.number,
            g: self.g,
            u: self.u,
            commitment_h: self.commitment_h,
            commitment_g,
            hash,
        }
    }

    /// The base-`n` digits of `k`, little endian, of length `m`.
    ///
    /// Fails exactly when `k` is not below `N = n^m`.
    pub fn decompose(&self, k: u32) -> (r: Result<Vec<u32>, ProofError>)
        requires
            self.wf(),
        ensures
            r is Ok <==> (k as int) < pow(self.n as int, self.m as nat),
            r is Ok ==> r->Ok_0@.len() == self.m as nat,
            r is Ok ==> forall|j: int|
                0 <= j < self.m as int ==> (r->Ok_0@[j] as nat) == digits(
                    k as nat,
                    self.n as nat,
                    self.m as nat,
                )[j],
    {
        if k >= self.number {
            return Err(ProofError::InvalidParameter);
        }
        let n = self.n;
        let m = self.m;
        proof {
            vstd::arithmetic::power::lemma_pow0(n as int);
        }
        let mut d: Vec<u32> = Vec::new();
        let mut rem: u32 = k;
        let mut j: u32 = 0;
        while j < m
            invariant
                n >= 2,
                j <= m,
                d@.len() == j as nat,
                rem as int == (k as int) / pow(n as int, j as nat),
                forall|jj: int| 0 <= jj < j ==> (d@[jj] as nat) == digits(k as nat, n as nat, m as nat)[jj],
            decreases m - j,
        {
            d.push(rem % n);
            proof {
                vstd::arithmetic::power::lemma_pow_positive(n as int, j as nat);
                vstd::arithmetic::div_mod::lemma_div_denominator(
                    k as int,
                    pow(n as int, j as nat),
                    n as int,
                );
                crate::lemma_pow_step(n as int, j as nat);
            }
            rem = rem / n;
            j = j + 1;
        }
        Ok(d)
    }

    /// The Pedersen-style matrix commitment
    /// `rho * CommitmentH + sum over (j, i) of matrix[j][i] * CommitmentG[j][i]`,
    /// computed in constant time as one multiscalar multiplication.
    pub(crate) fn commit_matrix(&self, matrix: &Vec<Vec<Scalar>>, rho: &Scalar) -> (r:
        RistrettoPoint)
        requires
            self.wf(),
            matrix@.len() == self.m as nat,
            forall|j: int| 0 <= j < matrix@.len() ==> (#[trigger] matrix@[j])@.len() == self.n as nat,
        ensures
            r == msm_of(
                flatten_rows(mat_view(*matrix), self.n as nat).push(*rho),
                self.commitment_g@.push(self.commitment_h),
            ),
    {
        let n = self.n;
        let m = self.m;
        let mut scalars: Vec<Scalar> = Vec::new();
        let mut j: u32 = 0;
        while j < m
            invariant
                n >= 2,
                j <= m,
                matrix@.len() == m as nat,
                forall|jj: int| 0 <= jj < matrix@.len() ==> (#[trigger] matrix@[jj])@.len() == n as nat,
                scalars@.len() == (j as nat) * (n as nat),
                forall|t: int|
                    0 <= t < scalars@.len() ==> #[trigger] scalars@[t] == matrix@[t / (
                    n as int)]@[t % (n as int)],
            decreases m - j,
        {
            let mut i: u32 = 0;
            while i < n
                invariant
                    n >= 2,
                    i <= n,
                    j < m,
                    matrix@.len() == m as nat,
                    forall|jj: int| 0 <= jj < matrix@.len() ==> (#[trigger] matrix@[jj])@.len() == n as nat,
                    scalars@.len() == (j as nat) * (n as nat) + i as nat,
                    forall|t: int|
                        0 <= t < scalars@.len() ==> #[trigger] scalars@[t] == matrix@[t / (
                        n as int)]@[t % (n as int)],
                decreases n - i,
            {
                let row = &matrix[j as usize];
                scalars.push(row[i as usize]);
                proof {
                    let t0 = (j as int) * (n as int) + i as int;
                    vstd::arithmetic::div_mod::lemma_fundamental_div_mod_converse(
                        t0,
                        n as int,
                        j as int,
                        i as int,
                    );
                }
                i = i + 1;
            }
            proof {
                assert((j as nat) * (n as nat) + (n as nat) == ((j + 1) as nat) * (n as nat))
                    by (nonlinear_arith);
            }
            j = j + 1;
        }
        scalars.push(*rho);
        let mut points: Vec<RistrettoPoint> = Vec::new();
        let len = self.commitment_g.len();
        let mut k: usize = 0;
        while k < len
            invariant
                len == self.commitment_g@.len(),
                k <= len,
                points@ =~= self.commitment_g@.take(k as int),
            decreases len - k,
        {
            points.push(self.commitment_g[k]);
            k = k + 1;
        }
        points.push(self.commitment_h);
        proof {
            assert(points@ =~= self.commitment_g@.push(self.commitment_h));
            let rows = mat_view(*matrix);
            let flat = flatten_rows(rows, n as nat);
            assert forall|t: int| 0 <= t < (m as int) * (n as int) implies scalars@[t] == flat[t] by {
                vstd::arithmetic::div_mod::lemma_multiply_divide_lt(t, n as int, m as int);
                assert(rows[t / (n as int)] == matrix@[t / (n as int)]@);
            }
            assert(scalars@.drop_last() =~= flat);
            assert(scalars@ =~= flat.push(*rho));
        }
        multiscalar_mul(&scalars, &points)
    }
}

/// Field-for-field agreement of two parameter sets; the library's notion of
/// parameter equality (points compared as group elements through their
/// stored values).
pub open spec fn params_equal(a: Parameters, b: Parameters) -> bool {
    &&& a.n == b.n
    &&& a.m == b.m
    &&& a.number == b.number
    &&& a.g == b.g
    &&& a.u == b.u
    &&& a.commitment_h == b.commitment_h
    &&& a.commitment_g@ == b.commitment_g@
    &&& a.hash@ == b.hash@
}

/// The views of the rows of a scalar matrix.
pub open spec fn mat_view(m: Vec<Vec<Scalar>>) -> Seq<Seq<Scalar>> {
    m@.map_values(|r: Vec<Scalar>| r@)
}

/// A matrix of rows, each of length `n`, flattened row-major.
pub open spec fn flatten_rows(rows: Seq<Seq<Scalar>>, n: nat) -> Seq<Scalar> {
    Seq::new(rows.len() * n, |t: int| rows[t / (n as int)][t % (n as int)])
}

/// Two parameter sets derived from the same `(n, m)` agree on every stored
/// value: the derivation is deterministic.
pub proof fn lemma_parameters_deterministic(a: Parameters, b: Parameters, n: u32, m: u32)
    requires
        a.derived_from(n, m),
        b.derived_from(n, m),
    ensures
        a.n == b.n,
        a.m == b.m,
        a.number == b.number,
        a.hash@ == b.hash@,
        compress_of(a.g) == compress_of(b.g),
        a.commitment_g@ == b.commitment_g@,
        a.commitment_h == b.commitment_h,
        a.u == b.u,
{
    assert(a.commitment_g@ =~= b.commitment_g@);
}

} // verus!
