//! The Triptych proof itself: proving and verifying.
//!
//! The Fiat-Shamir challenge is a deterministic function of the statement,
//! the optional message, and the proof's commitment points, absorbed into the
//! transcript in a fixed order; [`statement_challenge`] is that function, and
//! both the prover and the verifier are proved to draw exactly it.

use vstd::prelude::*;
use vstd::arithmetic::power::pow;
use curve25519_dalek::ristretto::RistrettoPoint;
use curve25519_dalek::scalar::Scalar;
use crate::digits;
use rand_core::CryptoRngCore;
use vstd::pervasive::VecAdditionalExecFns;
use crate::bytes_eq;
use crate::group::compress_of;
use crate::group::multiscalar_mul;
use crate::group::point_compress;
use crate::group::point_eq;
use crate::group::point_mul;
use crate::group::scalar_add;
use crate::group::scalar_neg;
use crate::group::scalar_random;
use crate::group::scalar_sub;
use crate::group::wipe_scalar;
use crate::group::wipe_scalar_matrix;
use crate::group::wipe_scalar_vec;
use crate::witness::Witness;
use crate::group::identity_bytes;
use crate::group::s_add;
use crate::group::s_from_u32;
use crate::group::s_mul;
use crate::group::s_neg;
use crate::group::s_sub;
use crate::group::scalar_eq;
use crate::group::scalar_from_u32;
use crate::group::scalar_from_wide_bytes;
use crate::group::scalar_mul;
use crate::group::smul_of;
use crate::group::vartime_msm_of;
use crate::group::wide_reduce_of;
use crate::statement::Statement;
use crate::transcript::ProofTranscript;
use crate::transcript::challenge_of;
use crate::transcript::label_bytes;
use crate::transcript::op_append;
use crate::transcript::op_append_u64;
use crate::transcript::op_domain;

verus! {

/// A Triptych proof.
#[derive(Clone, PartialEq, Eq)]
pub struct Proof {
    /// Commitment to the mask matrix `a`.
    pub a: RistrettoPoint,
    /// Commitment to the index matrix `sigma`.
    pub b: RistrettoPoint,
    /// Commitment to `a (1 - 2 sigma)`, entrywise.
    pub c: RistrettoPoint,
    /// Commitment to `-a a`, entrywise.
    pub d: RistrettoPoint,
    /// The `m` masked input-set combinations.
    pub x: Vec<RistrettoPoint>,
    /// The `m` masked linking-tag multiples.
    pub y: Vec<RistrettoPoint>,
    /// The response matrix, rows of length `n - 1`: column 0 is omitted and
    /// is reconstructed from the challenge.
    pub f: Vec<Vec<Scalar>>,
    /// Response binding the `A`/`B` blindings.
    pub z_a: Scalar,
    /// Response binding the `C`/`D` blindings.
    pub z_c: Scalar,
    /// Response binding the witness scalar and the masks.
    pub z: Scalar,
}

/// Errors that can arise relating to proofs.
#[derive(Clone, Copy, Debug, PartialEq, Eq, Structural)]
pub enum ProofError {
    /// An invalid parameter was provided.
    InvalidParameter,
    /// A transcript challenge was invalid.
    InvalidChallenge,
}

/// The machine limit on an optional message argument: `merlin` encodes
/// every absorbed message's length as a 32-bit integer.
pub open spec fn message_ok(m: Option<&[u8]>) -> bool {
    match m {
        Some(b) => b@.len() <= u32::MAX,
        None => true,
    }
}

/// The view of an optional message argument.
pub open spec fn message_view(m: Option<&[u8]>) -> Option<Seq<u8>> {
    match m {
        Some(b) => Some(b@),
        None => None,
    }
}

/// The transcript history up to the linking tag: domain label, version,
/// optional message, parameter hash, input-set hash, compressed tag.
pub open spec fn base_history(
    params_hash: Seq<u8>,
    set_hash: Seq<u8>,
    j_bytes: Seq<u8>,
    message: Option<Seq<u8>>,
) -> Seq<Seq<u8>> {
    op_domain("Triptych proof"@) + op_append_u64("version"@, 0u64) + (match message {
        Some(msg) => op_append("message"@, msg),
        None => Seq::<Seq<u8>>::empty(),
    }) + op_append("params"@, params_hash) + op_append("M"@, set_hash) + op_append(
        "J"@,
        j_bytes,
    )
}

/// The history entries of the first `k` points of `pts`, each under `label`.
pub open spec fn points_history(label: Seq<char>, pts: Seq<RistrettoPoint>, k: nat) -> Seq<Seq<u8>>
    decreases k,
{
    if k == 0 {
        Seq::empty()
    } else {
        points_history(label, pts, (k - 1) as nat) + op_append(label, compress_of(pts[k - 1]))
    }
}

/// The complete Fiat-Shamir history absorbed by prover and verifier alike.
pub open spec fn full_history(
    params_hash: Seq<u8>,
    set_hash: Seq<u8>,
    j_bytes: Seq<u8>,
    message: Option<Seq<u8>>,
    a: RistrettoPoint,
    b: RistrettoPoint,
    c: RistrettoPoint,
    d: RistrettoPoint,
    xs: Seq<RistrettoPoint>,
    ys: Seq<RistrettoPoint>,
) -> Seq<Seq<u8>> {
    base_history(params_hash, set_hash, j_bytes, message) + op_append("A"@, compress_of(a))
        + op_append("B"@, compress_of(b)) + op_append("C"@, compress_of(c)) + op_append(
        "D"@,
        compress_of(d),
    ) + points_history("X"@, xs, xs.len()) + points_history("Y"@, ys, ys.len())
}

/// The challenge scalar drawn from a history: 64 bytes under the label `xi`,
/// wide-reduced mod the group order.
pub open spec fn challenge_scalar(h: Seq<Seq<u8>>) -> Scalar {
    wide_reduce_of(challenge_of(h, label_bytes("xi"@), 64))
}

/// The challenge that a statement, a message, and a proof's commitment points
/// determine. Prover and verifier both draw exactly this scalar.
pub open spec fn statement_challenge(stmt: Statement, message: Option<Seq<u8>>, p: Proof) -> Scalar {
    challenge_scalar(
        full_history(
            stmt.params.hash@,
            stmt.input_set.hash@,
            compress_of(stmt.j),
            message,
            p.a,
            p.b,
            p.c,
            p.d,
            p.x@,
            p.y@,
        ),
    )
}

/// `xi` to the power `i`, by iterated multiplication from one.
pub open spec fn xi_pow(xi: Scalar, i: nat) -> Scalar
    decreases i,
{
    if i == 0 {
        s_from_u32(1)
    } else {
        s_mul(xi_pow(xi, (i - 1) as nat), xi)
    }
}

/// All challenge powers with exponents up to `m` are nonzero.
pub open spec fn powers_nonzero(xi: Scalar, m: nat) -> bool
    decreases m,
{
    &&& xi_pow(xi, m) != s_from_u32(0)
    &&& (m == 0 || powers_nonzero(xi, (m - 1) as nat))
}

/// When every power up to `m` is nonzero, so is each one in particular.
pub proof fn lemma_powers_nonzero_at(xi: Scalar, m: nat, i: nat)
    requires
        powers_nonzero(xi, m),
        i <= m,
    ensures
        xi_pow(xi, i) != s_from_u32(0),
    decreases m,
{
    if i < m {
        lemma_powers_nonzero_at(xi, (m - 1) as nat, i);
    }
}

impl Proof {
    /// The shape a proof has for parameters `(n, m)`: `m` points in each of
    /// `X` and `Y`, and an `m` by `n - 1` response matrix.
    pub open spec fn wf(self, n: nat, m: nat) -> bool {
        &&& self.x@.len() == m
        &&& self.y@.len() == m
        &&& self.f@.len() == m
        &&& forall|j: int| 0 <= j < self.f@.len() ==> (#[trigger] self.f@[j])@.len() == n - 1
    }

    /// Builds the proof from the witness, the drawn mask matrix, the four
    /// blindings, and the mask vector, exactly as the spec construction
    /// [`proof_built_from`] describes.
    ///
    /// Fails, with the invalid-challenge error, exactly when a power of the
    /// challenge determined by those drawn values is zero.
    #[verifier::rlimit(100)]
    #[verifier::spinoff_prover]
    fn prove_core(
        witness: &Witness,
        statement: &Statement,
        message: Option<&[u8]>,
        a_draw: Vec<Vec<Scalar>>,
        r_a: Scalar,
        r_b: Scalar,
        r_c: Scalar,
        r_d: Scalar,
        rho_draw: Vec<Scalar>,
    ) -> (r: Result<Proof, ProofError>)
        requires
            witness.wf(),
            statement.wf(),
            message_ok(message),
            !prove_rejects(*witness, *statement),
            a_draw@.len() == statement.params.m as nat,
            forall|q: int|
                0 <= q < a_draw@.len() ==> (#[trigger] a_draw@[q])@.len()
                    == statement.params.n as nat,
            rho_draw@.len() == statement.params.m as nat,
        ensures
            r is Ok <==> powers_nonzero(
                built_challenge(
                    *statement,
                    message_view(message),
                    witness.l,
                    crate::params::mat_view(a_draw),
                    r_a,
                    r_b,
                    r_c,
                    r_d,
                    rho_draw@,
                ),
                statement.params.m as nat,
            ),
            r is Err ==> r->Err_0 == ProofError::InvalidChallenge,
            r is Ok ==> proof_built_from(
                *statement,
                message_view(message),
                witness.r,
                witness.l,
                crate::params::mat_view(a_draw),
                r_a,
                r_b,
                r_c,
                r_d,
                rho_draw@,
                r->Ok_0,
            ),
            r is Ok ==> r->Ok_0.wf(statement.params.n as nat, statement.params.m as nat),
            r is Ok ==> powers_nonzero(
                statement_challenge(*statement, message_view(message), r->Ok_0),
                statement.params.m as nat,
            ),
    {
        let params = statement.get_params();
        let n = params.get_n();
        let m = params.get_m();
        let number = params.get_N();
        let l = witness.get_l();
        let keys = statement.get_input_set().get_keys();
        proof {
            crate::lemma_pow_exceeds_exponent(n as nat, m as nat);
        }
        let ghost mv = crate::params::mat_view(a_draw);
        let ghost fx = fixed_mat(mv);
        let ghost sg = sigma_mat(l, n as nat, m as nat);
        let ghost rhov = rho_draw@;
        let ghost bxi = built_challenge(
            *statement,
            message_view(message),
            l,
            mv,
            r_a,
            r_b,
            r_c,
            r_d,
            rhov,
        );

        // Start the transcript.
        proof {
            reveal_strlit("Triptych proof");
            reveal_strlit("version");
            reveal_strlit("message");
            reveal_strlit("params");
            reveal_strlit("M");
            reveal_strlit("J");
        }
        let mut t = ProofTranscript::new("Triptych proof");
        t.append_u64("version", 0u64);
        match message {
            Some(msg) => t.append("message", msg),
            None => {},
        }
        t.append("params", params.get_hash().as_slice());
        t.append("M", statement.get_input_set().get_hash().as_slice());
        let j_bytes = point_compress(statement.get_J());
        t.append("J", j_bytes.as_slice());
        let ghost hist_base = base_history(
            statement.params.hash@,
            statement.input_set.hash@,
            compress_of(statement.j),
            message_view(message),
        );
        proof {
            assert(t.history@ =~= hist_base);
        }

        // Fix each drawn mask row so that it sums to zero.
        let mut a_mat: Vec<Vec<Scalar>> = Vec::new();
        let mut j: u32 = 0;
        while j < m
            invariant
                n >= 2,
                j <= m,
                mv == crate::params::mat_view(a_draw),
                fx == fixed_mat(mv),
                a_draw@.len() == m as nat,
                forall|q: int| 0 <= q < a_draw@.len() ==> (#[trigger] a_draw@[q])@.len() == n as nat,
                a_mat@.len() == j as nat,
                forall|q: int| 0 <= q < j ==> (#[trigger] a_mat@[q])@.len() == n as nat,
                forall|q: int| 0 <= q < j ==> (#[trigger] a_mat@[q])@ == fx[q],
            decreases m - j,
        {
            let draw_row = &a_draw[j as usize];
            let rl = draw_row.len();
            let mut row: Vec<Scalar> = Vec::new();
            let mut i: usize = 0;
            while i < rl
                invariant
                    rl == draw_row@.len(),
                    i <= rl,
                    row@ =~= draw_row@.take(i as int),
                decreases rl - i,
            {
                row.push(draw_row[i]);
                i = i + 1;
            }
            proof {
                assert(row@ =~= draw_row@);
            }
            let mut acc = scalar_from_u32(0);
            let mut i2: usize = 1;
            while i2 < rl
                invariant
                    rl == draw_row@.len(),
                    rl >= 1,
                    1 <= i2 <= rl,
                    row@ == draw_row@,
                    acc == seq_sum(draw_row@.subrange(1, i2 as int)),
                decreases rl - i2,
            {
                proof {
                    assert(draw_row@.subrange(1, i2 + 1).drop_last() =~= draw_row@.subrange(
                        1,
                        i2 as int,
                    ));
                    assert(draw_row@.subrange(1, i2 + 1).last() == draw_row@[i2 as int]);
                }
                acc = scalar_add(&acc, &row[i2]);
                i2 = i2 + 1;
            }
            let neg = scalar_neg(&acc);
            row.set(0, neg);
            proof {
                assert(mv[j as int] == draw_row@);
                assert(row@ =~= fix_row(draw_row@));
                assert(fx[j as int] == fix_row(mv[j as int]));
            }
            a_mat.push(row);
            j = j + 1;
        }
        proof {
            assert(crate::params::mat_view(a_mat) =~= fx);
        }
        let cap_a = params.commit_matrix(&a_mat, &r_a);
        proof {
            assert(cap_a == committed(*statement, fx, r_a));
        }

        // The index matrix `sigma` encodes the digits of `l`.
        let l_decomposed = match params.decompose(l) {
            Ok(d) => d,
            Err(_) => {
                // Unreachable: the witness index is below the input-set
                // length N.
                proof {
                    assert(false);
                }
                return Err(ProofError::InvalidParameter);
            },
        };
        proof {
            assert forall|q: int| 0 <= q < m as int implies (l_decomposed@[q] as int) < n as int by {
                assert((l_decomposed@[q] as nat) == digits(l as nat, n as nat, m as nat)[q]);
            }
        }
        let mut sigma: Vec<Vec<Scalar>> = Vec::new();
        let mut j2: u32 = 0;
        while j2 < m
            invariant
                n >= 2,
                j2 <= m,
                sg == sigma_mat(l, n as nat, m as nat),
                l_decomposed@.len() == m as nat,
                forall|q: int|
                    0 <= q < m as int ==> (#[trigger] l_decomposed@[q] as nat) == digits(
                        l as nat,
                        n as nat,
                        m as nat,
                    )[q],
                sigma@.len() == j2 as nat,
                forall|q: int| 0 <= q < j2 ==> (#[trigger] sigma@[q])@.len() == n as nat,
                forall|q: int| 0 <= q < j2 ==> (#[trigger] sigma@[q])@ == sg[q],
            decreases m - j2,
        {
            let dj = l_decomposed[j2 as usize];
            let mut row: Vec<Scalar> = Vec::new();
            let mut i: u32 = 0;
            while i < n
                invariant
                    i <= n,
                    j2 < m,
                    dj == l_decomposed@[j2 as int],
                    (dj as nat) == digits(l as nat, n as nat, m as nat)[j2 as int],
                    row@.len() == i as nat,
                    forall|q: int|
                        0 <= q < i ==> #[trigger] row@[q] == spec_delta(
                            l_digit(l, n as nat, m as nat, j2 as int),
                            q as u32,
                        ),
                decreases n - i,
            {
                row.push(delta(dj, i));
                i = i + 1;
            }
            proof {
                assert(row@ =~= sg[j2 as int]);
            }
            sigma.push(row);
            j2 = j2 + 1;
        }
        proof {
            assert(crate::params::mat_view(sigma) =~= sg);
        }
        let cap_b = params.commit_matrix(&sigma, &r_b);
        proof {
            assert(cap_b == committed(*statement, sg, r_b));
        }

        // `C` commits `a (1 - 2 sigma)` entrywise.
        let two = scalar_from_u32(2);
        let one = scalar_from_u32(1);
        let mut a_sigma: Vec<Vec<Scalar>> = Vec::new();
        let mut j3: u32 = 0;
        while j3 < m
            invariant
                n >= 2,
                j3 <= m,
                one == s_from_u32(1),
                two == s_from_u32(2),
                a_mat@.len() == m as nat,
                sigma@.len() == m as nat,
                forall|q: int| 0 <= q < m as int ==> (#[trigger] a_mat@[q])@.len() == n as nat,
                forall|q: int| 0 <= q < m as int ==> (#[trigger] sigma@[q])@.len() == n as nat,
                forall|q: int| 0 <= q < m as int ==> (#[trigger] a_mat@[q])@ == fx[q],
                forall|q: int| 0 <= q < m as int ==> (#[trigger] sigma@[q])@ == sg[q],
                a_sigma@.len() == j3 as nat,
                forall|q: int| 0 <= q < j3 ==> (#[trigger] a_sigma@[q])@.len() == n as nat,
                forall|q: int|
                    0 <= q < j3 ==> (#[trigger] a_sigma@[q])@ == c_mat(
                        fx,
                        sg,
                        n as nat,
                        m as nat,
                    )[q],
            decreases m - j3,
        {
            let a_row = &a_mat[j3 as usize];
            let s_row = &sigma[j3 as usize];
            let mut row: Vec<Scalar> = Vec::new();
            let mut i: u32 = 0;
            while i < n
                invariant
                    i <= n,
                    j3 < m,
                    one == s_from_u32(1),
                    two == s_from_u32(2),
                    a_row@.len() == n as nat,
                    s_row@.len() == n as nat,
                    a_row@ == fx[j3 as int],
                    s_row@ == sg[j3 as int],
                    row@.len() == i as nat,
                    forall|q: int|
                        0 <= q < i ==> #[trigger] row@[q] == s_mul(
                            fx[j3 as int][q],
                            s_sub(s_from_u32(1), s_mul(s_from_u32(2), sg[j3 as int][q])),
                        ),
                decreases n - i,
            {
                let factor = scalar_sub(&one, &scalar_mul(&two, &s_row[i as usize]));
                row.push(scalar_mul(&a_row[i as usize], &factor));
                i = i + 1;
            }
            proof {
                assert(row@ =~= c_mat(fx, sg, n as nat, m as nat)[j3 as int]);
            }
            a_sigma.push(row);
            j3 = j3 + 1;
        }
        proof {
            assert(crate::params::mat_view(a_sigma) =~= c_mat(fx, sg, n as nat, m as nat));
        }
        let cap_c = params.commit_matrix(&a_sigma, &r_c);
        proof {
            assert(cap_c == committed(*statement, c_mat(fx, sg, n as nat, m as nat), r_c));
        }

        // `D` commits `-a a` entrywise.
        let mut a_square: Vec<Vec<Scalar>> = Vec::new();
        let mut j4: u32 = 0;
        while j4 < m
            invariant
                n >= 2,
                j4 <= m,
                a_mat@.len() == m as nat,
                forall|q: int| 0 <= q < m as int ==> (#[trigger] a_mat@[q])@.len() == n as nat,
                forall|q: int| 0 <= q < m as int ==> (#[trigger] a_mat@[q])@ == fx[q],
                a_square@.len() == j4 as nat,
                forall|q: int| 0 <= q < j4 ==> (#[trigger] a_square@[q])@.len() == n as nat,
                forall|q: int|
                    0 <= q < j4 ==> (#[trigger] a_square@[q])@ == d_mat(fx, n as nat, m as nat)[q],
            decreases m - j4,
        {
            let a_row = &a_mat[j4 as usize];
            let mut row: Vec<Scalar> = Vec::new();
            let mut i: u32 = 0;
            while i < n
                invariant
                    i <= n,
                    j4 < m,
                    a_row@.len() == n as nat,
                    a_row@ == fx[j4 as int],
                    row@.len() == i as nat,
                    forall|q: int|
                        0 <= q < i ==> #[trigger] row@[q] == s_mul(
                            s_neg(fx[j4 as int][q]),
                            fx[j4 as int][q],
                        ),
                decreases n - i,
            {
                let neg = scalar_neg(&a_row[i as usize]);
                row.push(scalar_mul(&neg, &a_row[i as usize]));
                i = i + 1;
            }
            proof {
                assert(row@ =~= d_mat(fx, n as nat, m as nat)[j4 as int]);
            }
            a_square.push(row);
            j4 = j4 + 1;
        }
        proof {
            assert(crate::params::mat_view(a_square) =~= d_mat(fx, n as nat, m as nat));
        }
        let cap_d = params.commit_matrix(&a_square, &r_d);
        proof {
            assert(cap_d == committed(*statement, d_mat(fx, n as nat, m as nat), r_d));
        }

        // Polynomial coefficients by iterated convolution: p[k] has degree m
        // exactly when k is the witness index.
        let mut p_coeffs: Vec<Vec<Scalar>> = Vec::new();
        let mut k: u32 = 0;
        while k < number
            invariant
                n >= 2,
                m >= 2,
                m < u32::MAX,
                number as int == pow(n as int, m as nat),
                params.wf(),
                params == statement.params,
                n == params.n,
                m == params.m,
                number == params.number,
                k <= number,
                a_mat@.len() == m as nat,
                sigma@.len() == m as nat,
                forall|q: int| 0 <= q < m as int ==> (#[trigger] a_mat@[q])@.len() == n as nat,
                forall|q: int| 0 <= q < m as int ==> (#[trigger] sigma@[q])@.len() == n as nat,
                forall|q: int| 0 <= q < m as int ==> (#[trigger] a_mat@[q])@ == fx[q],
                forall|q: int| 0 <= q < m as int ==> (#[trigger] sigma@[q])@ == sg[q],
                p_coeffs@.len() == k as nat,
                forall|q: int| 0 <= q < k ==> (#[trigger] p_coeffs@[q])@.len() == m + 1,
                forall|q: int|
                    0 <= q < k ==> (#[trigger] p_coeffs@[q])@ == poly_full(
                        fx,
                        sg,
                        q as nat,
                        n as nat,
                        m as nat,
                    ),
            decreases number - k,
        {
            let k_decomposed = match params.decompose(k) {
                Ok(d) => d,
                Err(_) => {
                    // Unreachable: the index is below N, so decomposition
                    // succeeds.
                    proof {
                        assert(false);
                    }
                    return Err(ProofError::InvalidParameter);
                },
            };
            proof {
                assert forall|q: int| 0 <= q < m as int implies (k_decomposed@[q] as int)
                    < n as int by {
                    assert((k_decomposed@[q] as nat) == digits(k as nat, n as nat, m as nat)[q]);
                }
            }
            let d0 = k_decomposed[0];
            let first_a = &a_mat[0];
            let first_s = &sigma[0];
            let mut coeffs: Vec<Scalar> = Vec::new();
            coeffs.push(first_a[d0 as usize]);
            coeffs.push(first_s[d0 as usize]);
            let mut fill: u32 = 2;
            while fill <= m
                invariant
                    2 <= fill <= m + 1,
                    m < u32::MAX,
                    coeffs@.len() == fill as nat,
                    coeffs@[0] == first_a@[d0 as int],
                    coeffs@[1] == first_s@[d0 as int],
                    forall|q: int| 2 <= q < fill ==> #[trigger] coeffs@[q] == s_from_u32(0),
                decreases m + 1 - fill,
            {
                coeffs.push(scalar_from_u32(0));
                fill = fill + 1;
            }
            proof {
                assert(coeffs@ =~= poly_at(fx, sg, k as nat, n as nat, m as nat, 1));
            }
            let mut jj: u32 = 1;
            while jj < m
                invariant
                    n >= 2,
                    1 <= jj <= m,
                    m < u32::MAX,
                    coeffs@.len() == m + 1,
                    coeffs@ == poly_at(fx, sg, k as nat, n as nat, m as nat, jj as nat),
                    k_decomposed@.len() == m as nat,
                    forall|q: int| 0 <= q < m as int ==> (k_decomposed@[q] as int) < n as int,
                    forall|q: int|
                        0 <= q < m as int ==> (#[trigger] k_decomposed@[q] as nat) == digits(
                            k as nat,
                            n as nat,
                            m as nat,
                        )[q],
                    a_mat@.len() == m as nat,
                    sigma@.len() == m as nat,
                    forall|q: int| 0 <= q < m as int ==> (#[trigger] a_mat@[q])@.len() == n as nat,
                    forall|q: int| 0 <= q < m as int ==> (#[trigger] sigma@[q])@.len() == n as nat,
                    forall|q: int| 0 <= q < m as int ==> (#[trigger] a_mat@[q])@ == fx[q],
                    forall|q: int| 0 <= q < m as int ==> (#[trigger] sigma@[q])@ == sg[q],
                decreases m - jj,
            {
                let djj = k_decomposed[jj as usize] as usize;
                let a_row = &a_mat[jj as usize];
                let s_row = &sigma[jj as usize];
                let a_val = a_row[djj];
                let s_val = s_row[djj];
                proof {
                    assert(a_val == fx[jj as int][digits(k as nat, n as nat, m as nat)[
                        jj as int] as int]);
                    assert(s_val == sg[jj as int][digits(k as nat, n as nat, m as nat)[
                        jj as int] as int]);
                }
                // Convolve with `s_val x + a_val`; the top coefficient is
                // still zero, so rotating it to the front is sound.
                let mut next: Vec<Scalar> = Vec::new();
                next.push(
                    scalar_add(
                        &scalar_mul(&a_val, &coeffs[0]),
                        &scalar_mul(&s_val, &coeffs[m as usize]),
                    ),
                );
                let mut ii: usize = 1;
                while ii <= m as usize
                    invariant
                        1 <= ii <= m + 1,
                        m < u32::MAX,
                        next@.len() == ii as nat,
                        coeffs@.len() == m + 1,
                        forall|q: int|
                            0 <= q < ii ==> #[trigger] next@[q] == conv_next(
                                coeffs@,
                                a_val,
                                s_val,
                                m as nat,
                            )[q],
                    decreases m as usize + 1 - ii,
                {
                    next.push(
                        scalar_add(
                            &scalar_mul(&a_val, &coeffs[ii]),
                            &scalar_mul(&s_val, &coeffs[ii - 1]),
                        ),
                    );
                    ii = ii + 1;
                }
                proof {
                    assert(next@ =~= conv_next(coeffs@, a_val, s_val, m as nat));
                    assert(next@ =~= poly_at(fx, sg, k as nat, n as nat, m as nat, (jj
                        + 1) as nat));
                }
                coeffs = next;
                jj = jj + 1;
            }
            p_coeffs.push(coeffs);
            k = k + 1;
        }

        // X[j] = sum over k of p[k][j] M[k] + rho[j] G, in constant time.
        let mut msm_points: Vec<RistrettoPoint> = Vec::new();
        let klen = keys.len();
        let mut kp: usize = 0;
        while kp < klen
            invariant
                klen == keys@.len(),
                kp <= klen,
                keys == statement.input_set.keys,
                msm_points@ =~= keys@.take(kp as int),
            decreases klen - kp,
        {
            msm_points.push(keys[kp]);
            kp = kp + 1;
        }
        msm_points.push(*params.get_G());
        proof {
            assert(msm_points@ =~= statement.input_set.keys@.push(statement.params.g));
        }
        let mut x_vec: Vec<RistrettoPoint> = Vec::new();
        let mut j6: u32 = 0;
        while j6 < m
            invariant
                j6 <= m,
                n == statement.params.n,
                m == statement.params.m,
                number == statement.params.number,
                x_vec@.len() == j6 as nat,
                msm_points@.len() == number as nat + 1,
                msm_points@ == statement.input_set.keys@.push(statement.params.g),
                p_coeffs@.len() == number as nat,
                forall|q: int| 0 <= q < number as int ==> (#[trigger] p_coeffs@[q])@.len() == m + 1,
                forall|q: int|
                    0 <= q < number as int ==> (#[trigger] p_coeffs@[q])@ == poly_full(
                        fx,
                        sg,
                        q as nat,
                        n as nat,
                        m as nat,
                    ),
                rho_draw@.len() == m as nat,
                rhov == rho_draw@,
                forall|q: int|
                    0 <= q < j6 ==> #[trigger] x_vec@[q] == built_x(*statement, fx, sg, rhov, q),
            decreases m - j6,
        {
            let mut msm_scalars: Vec<Scalar> = Vec::new();
            let mut kq: usize = 0;
            let plen = p_coeffs.len();
            while kq < plen
                invariant
                    plen == p_coeffs@.len(),
                    kq <= plen,
                    j6 < m,
                    n == statement.params.n,
                    m == statement.params.m,
                    msm_scalars@.len() == kq as nat,
                    forall|q: int| 0 <= q < plen ==> (#[trigger] p_coeffs@[q])@.len() == m + 1,
                    forall|q: int|
                        0 <= q < plen ==> (#[trigger] p_coeffs@[q])@ == poly_full(
                            fx,
                            sg,
                            q as nat,
                            n as nat,
                            m as nat,
                        ),
                    forall|q: int|
                        0 <= q < kq ==> #[trigger] msm_scalars@[q] == poly_full(
                            fx,
                            sg,
                            q as nat,
                            n as nat,
                            m as nat,
                        )[j6 as int],
                decreases plen - kq,
            {
                let row = &p_coeffs[kq];
                msm_scalars.push(row[j6 as usize]);
                kq = kq + 1;
            }
            msm_scalars.push(rho_draw[j6 as usize]);
            proof {
                assert(msm_scalars@ =~= Seq::new(
                    statement.params.number as nat,
                    |q: int|
                        poly_full(
                            fx,
                            sg,
                            q as nat,
                            statement.params.n as nat,
                            statement.params.m as nat,
                        )[j6 as int],
                ).push(rhov[j6 as int]));
            }
            x_vec.push(multiscalar_mul(&msm_scalars, &msm_points));
            proof {
                assert(x_vec@.last() == built_x(*statement, fx, sg, rhov, j6 as int));
            }
            j6 = j6 + 1;
        }

        // Y[j] = rho[j] J.
        let mut y_vec: Vec<RistrettoPoint> = Vec::new();
        let mut j7: u32 = 0;
        while j7 < m
            invariant
                j7 <= m,
                y_vec@.len() == j7 as nat,
                rho_draw@.len() == m as nat,
                rhov == rho_draw@,
                forall|q: int|
                    0 <= q < j7 ==> #[trigger] y_vec@[q] == smul_of(rhov[q], statement.j),
            decreases m - j7,
        {
            y_vec.push(point_mul(&rho_draw[j7 as usize], statement.get_J()));
            j7 = j7 + 1;
        }

        // Absorb the commitments and draw the challenge.
        proof {
            reveal_strlit("A");
            reveal_strlit("B");
            reveal_strlit("C");
            reveal_strlit("D");
            reveal_strlit("X");
            reveal_strlit("Y");
        }
        let ab = point_compress(&cap_a);
        t.append("A", ab.as_slice());
        let bb = point_compress(&cap_b);
        t.append("B", bb.as_slice());
        let cb = point_compress(&cap_c);
        t.append("C", cb.as_slice());
        let db = point_compress(&cap_d);
        t.append("D", db.as_slice());
        let ghost hist_abcd = hist_base + op_append("A"@, compress_of(cap_a)) + op_append(
            "B"@,
            compress_of(cap_b),
        ) + op_append("C"@, compress_of(cap_c)) + op_append("D"@, compress_of(cap_d));
        proof {
            assert(t.history@ =~= hist_abcd);
        }
        let xlen = x_vec.len();
        let mut jx: usize = 0;
        while jx < xlen
            invariant
                xlen == x_vec@.len(),
                jx <= xlen,
                t.history@ == hist_abcd + points_history("X"@, x_vec@, jx as nat),
            decreases xlen - jx,
        {
            proof {
                reveal_strlit("X");
            }
            let xb = point_compress(&x_vec[jx]);
            t.append("X", xb.as_slice());
            proof {
                assert(t.history@ =~= hist_abcd + points_history("X"@, x_vec@, (jx + 1) as nat));
            }
            jx = jx + 1;
        }
        let ghost hist_x = hist_abcd + points_history("X"@, x_vec@, x_vec@.len());
        let ylen = y_vec.len();
        let mut jy: usize = 0;
        while jy < ylen
            invariant
                ylen == y_vec@.len(),
                jy <= ylen,
                t.history@ == hist_x + points_history("Y"@, y_vec@, jy as nat),
            decreases ylen - jy,
        {
            proof {
                reveal_strlit("Y");
            }
            let yb = point_compress(&y_vec[jy]);
            t.append("Y", yb.as_slice());
            proof {
                assert(t.history@ =~= hist_x + points_history("Y"@, y_vec@, (jy + 1) as nat));
            }
            jy = jy + 1;
        }
        proof {
            assert(x_vec@ =~= Seq::new(
                statement.params.m as nat,
                |q: int| built_x(*statement, fx, sg, rhov, q),
            ));
            assert(y_vec@ =~= Seq::new(
                statement.params.m as nat,
                |q: int| smul_of(rhov[q], statement.j),
            ));
            assert(t.history@ =~= full_history(
                statement.params.hash@,
                statement.input_set.hash@,
                compress_of(statement.j),
                message_view(message),
                cap_a,
                cap_b,
                cap_c,
                cap_d,
                x_vec@,
                y_vec@,
            ));
            assert(challenge_scalar(t.history@) == bxi);
        }

        let mut a_draw = a_draw;
        let mut rho_draw = rho_draw;
        let mut r_a = r_a;
        let mut r_b = r_b;
        let mut r_c = r_c;
        let mut r_d = r_d;
        let xis = match xi_powers(&mut t, m) {
            Ok(v) => v,
            Err(_) => {
                wipe_scalar_matrix(&mut a_draw);
                wipe_scalar_matrix(&mut a_mat);
                wipe_scalar_matrix(&mut sigma);
                wipe_scalar_matrix(&mut a_sigma);
                wipe_scalar_matrix(&mut a_square);
                wipe_scalar_matrix(&mut p_coeffs);
                wipe_scalar_vec(&mut rho_draw);
                wipe_scalar(&mut r_a);
                wipe_scalar(&mut r_b);
                wipe_scalar(&mut r_c);
                wipe_scalar(&mut r_d);
                return Err(ProofError::InvalidChallenge);
            },
        };

        // The stored response matrix omits column 0.
        let mut f_mat: Vec<Vec<Scalar>> = Vec::new();
        let mut j8: u32 = 0;
        while j8 < m
            invariant
                n >= 2,
                j8 <= m,
                a_mat@.len() == m as nat,
                sigma@.len() == m as nat,
                forall|q: int| 0 <= q < m as int ==> (#[trigger] a_mat@[q])@.len() == n as nat,
                forall|q: int| 0 <= q < m as int ==> (#[trigger] sigma@[q])@.len() == n as nat,
                forall|q: int| 0 <= q < m as int ==> (#[trigger] a_mat@[q])@ == fx[q],
                forall|q: int| 0 <= q < m as int ==> (#[trigger] sigma@[q])@ == sg[q],
                xis@.len() == m + 1,
                xis@[1] == xi_pow(bxi, 1),
                f_mat@.len() == j8 as nat,
                forall|q: int| 0 <= q < j8 ==> (#[trigger] f_mat@[q])@.len() == n as nat - 1,
                forall|q: int, e: int|
                    0 <= q < j8 && 0 <= e < n as int - 1 ==> #[trigger] f_mat@[q]@[e] == s_add(
                        s_mul(sg[q][e + 1], xi_pow(bxi, 1)),
                        fx[q][e + 1],
                    ),
            decreases m - j8,
        {
            let a_row = &a_mat[j8 as usize];
            let s_row = &sigma[j8 as usize];
            let mut row: Vec<Scalar> = Vec::new();
            let mut i: u32 = 1;
            while i < n
                invariant
                    1 <= i <= n,
                    j8 < m,
                    row@.len() == i as nat - 1,
                    a_row@.len() == n as nat,
                    s_row@.len() == n as nat,
                    a_row@ == fx[j8 as int],
                    s_row@ == sg[j8 as int],
                    xis@.len() >= 2,
                    xis@[1] == xi_pow(bxi, 1),
                    forall|q: int|
                        0 <= q < i - 1 ==> #[trigger] row@[q] == s_add(
                            s_mul(sg[j8 as int][q + 1], xi_pow(bxi, 1)),
                            fx[j8 as int][q + 1],
                        ),
                decreases n - i,
            {
                row.push(scalar_add(&scalar_mul(&s_row[i as usize], &xis[1]), &a_row[i as usize]));
                i = i + 1;
            }
            f_mat.push(row);
            j8 = j8 + 1;
        }

        // Responses.
        let z_a = scalar_add(&r_a, &scalar_mul(&xis[1], &r_b));
        let z_c = scalar_add(&scalar_mul(&xis[1], &r_c), &r_d);
        let mut mask_sum = scalar_from_u32(0);
        let mut j9: usize = 0;
        let rlen = rho_draw.len();
        while j9 < rlen
            invariant
                rlen == rho_draw@.len(),
                rlen < xis@.len(),
                rlen == m as nat,
                rhov == rho_draw@,
                j9 <= rlen,
                forall|q: int| 0 <= q <= m as int ==> #[trigger] xis@[q] == xi_pow(bxi, q as nat),
                mask_sum == mask_wsum(rhov, bxi, j9 as nat),
            decreases rlen - j9,
        {
            mask_sum = scalar_add(&mask_sum, &scalar_mul(&rho_draw[j9], &xis[j9]));
            j9 = j9 + 1;
        }
        let z = scalar_sub(&scalar_mul(witness.get_r(), &xis[m as usize]), &mask_sum);

        // Zeroise every secret intermediate, the drawn values included.
        wipe_scalar_matrix(&mut a_draw);
        wipe_scalar_matrix(&mut a_mat);
        wipe_scalar_matrix(&mut sigma);
        wipe_scalar_matrix(&mut a_sigma);
        wipe_scalar_matrix(&mut a_square);
        wipe_scalar_matrix(&mut p_coeffs);
        wipe_scalar_vec(&mut rho_draw);
        wipe_scalar(&mut r_a);
        wipe_scalar(&mut r_b);
        wipe_scalar(&mut r_c);
        wipe_scalar(&mut r_d);

        let proof_val = Proof {
            a: cap_a,
            b: cap_b,
            c: cap_c,
            d: cap_d,
            x: x_vec,
            y: y_vec,
            f: f_mat,
            z_a,
            z_c,
            z,
        };
        proof {
            assert(statement_challenge(*statement, message_view(message), proof_val) == bxi);
        }
        Ok(proof_val)
    }

    /// Generates a Triptych proof for `witness` and `statement`, binding the
    /// optional `message` into the Fiat-Shamir transcript.
    ///
    /// Returns `InvalidParameter` exactly when the witness does not match
    /// the statement. On the remaining inputs it draws the mask matrix, the
    /// blindings and the mask vector from `rng` and hands them to the
    /// verified construction: any returned proof is the exact spec
    /// construction [`proof_built_from`] over some such draw, and the
    /// invalid-challenge error comes only from a draw whose challenge has a
    /// zero power.
    pub fn prove<R: CryptoRngCore>(
        witness: &Witness,
        statement: &Statement,
        message: Option<&[u8]>,
        rng: &mut R,
    ) -> (r: Result<Proof, ProofError>)
        requires
            witness.wf(),
            statement.wf(),
            message_ok(message),
        ensures
            (r matches Err(e) && e == ProofError::InvalidParameter) <==> prove_rejects(
                *witness,
                *statement,
            ),
            r is Ok ==> r->Ok_0.wf(statement.params.n as nat, statement.params.m as nat),
            r is Ok ==> powers_nonzero(
                statement_challenge(*statement, message_view(message), r->Ok_0),
                statement.params.m as nat,
            ),
            r is Ok ==> exists|
                aM: Seq<Seq<Scalar>>,
                r_a: Scalar,
                r_b: Scalar,
                r_c: Scalar,
                r_d: Scalar,
                rho: Seq<Scalar>,
            |
                proof_built_from(
                    *statement,
                    message_view(message),
                    witness.r,
                    witness.l,
                    aM,
                    r_a,
                    r_b,
                    r_c,
                    r_d,
                    rho,
                    r->Ok_0,
                ),
            (r matches Err(e) && e == ProofError::InvalidChallenge) ==> exists|
                aM: Seq<Seq<Scalar>>,
                r_a: Scalar,
                r_b: Scalar,
                r_c: Scalar,
                r_d: Scalar,
                rho: Seq<Scalar>,
            |
                !powers_nonzero(
                    built_challenge(
                        *statement,
                        message_view(message),
                        witness.l,
                        aM,
                        r_a,
                        r_b,
                        r_c,
                        r_d,
                        rho,
                    ),
                    statement.params.m as nat,
                ),
    {
        // Bind witness and statement to the same parameters, by hash.
        if !bytes_eq(witness.get_params().get_hash(), statement.get_params().get_hash()) {
            return Err(ProofError::InvalidParameter);
        }
        let params = statement.get_params();
        let n = params.get_n();
        let m = params.get_m();
        let l = witness.get_l();
        // Check the witness against the statement.
        let keys = statement.get_input_set().get_keys();
        if l as usize >= keys.len() {
            return Err(ProofError::InvalidParameter);
        }
        let vk = point_mul(witness.get_r(), params.get_G());
        let entry = keys[l as usize];
        if !point_eq(&entry, &vk) {
            return Err(ProofError::InvalidParameter);
        }
        let rj = point_mul(witness.get_r(), statement.get_J());
        if !point_eq(&rj, params.get_U()) {
            return Err(ProofError::InvalidParameter);
        }

        // Draw the mask matrix, the blindings, and the mask vector.
        let r_a = scalar_random(rng);
        let mut a_draw: Vec<Vec<Scalar>> = Vec::new();
        let mut j: u32 = 0;
        while j < m
            invariant
                j <= m,
                a_draw@.len() == j as nat,
                forall|q: int| 0 <= q < j ==> (#[trigger] a_draw@[q])@.len() == n as nat,
            decreases m - j,
        {
            let mut row: Vec<Scalar> = Vec::new();
            let mut i: u32 = 0;
            while i < n
                invariant
                    i <= n,
                    row@.len() == i as nat,
                decreases n - i,
            {
                row.push(scalar_random(rng));
                i = i + 1;
            }
            a_draw.push(row);
            j = j + 1;
        }
        let r_b = scalar_random(rng);
        let r_c = scalar_random(rng);
        let r_d = scalar_random(rng);
        let mut rho_draw: Vec<Scalar> = Vec::new();
        let mut j5: u32 = 0;
        while j5 < m
            invariant
                j5 <= m,
                rho_draw@.len() == j5 as nat,
            decreases m - j5,
        {
            rho_draw.push(scalar_random(rng));
            j5 = j5 + 1;
        }

        Self::prove_core(witness, statement, message, a_draw, r_a, r_b, r_c, r_d, rho_draw)
    }

    /// Rebuilds the Fiat-Shamir transcript for this proof, draws the
    /// challenge powers, and reconstructs the full response matrix.
    ///
    /// Returns `None` exactly when the proof is misshapen for the
    /// statement's parameters or a challenge power is zero.
    fn challenge_data(&self, statement: &Statement, message: Option<&[u8]>) -> (r: Option<
        (Vec<Scalar>, Vec<Vec<Scalar>>),
    >)
        requires
            statement.wf(),
            message_ok(message),
        ensures
            ({
                let xi = statement_challenge(*statement, message_view(message), *self);
                let nn = statement.params.n as nat;
                let mm = statement.params.m as nat;
                &&& (r is Some <==> (self.wf(nn, mm) && powers_nonzero(xi, mm)))
                &&& r is Some ==> r->Some_0.0@.len() == mm + 1
                &&& r is Some ==> forall|q: int|
                    0 <= q <= mm ==> r->Some_0.0@[q] == xi_pow(xi, q as nat)
                &&& r is Some ==> r->Some_0.1@.len() == mm
                &&& r is Some ==> forall|q: int|
                    0 <= q < mm ==> (#[trigger] r->Some_0.1@[q])@ == full_f(
                        f_view(self.f@),
                        xi_pow(xi, 1),
                    )[q]
                &&& r is Some ==> forall|q: int|
                    0 <= q < mm ==> (#[trigger] r->Some_0.1@[q])@.len() == nn
            }),
    {
        let params = statement.get_params();
        let n = params.get_n();
        let m = params.get_m();
        let number = params.get_N();
        proof {
            crate::lemma_pow_exceeds_exponent(n as nat, m as nat);
        }

        // Shape checks: a proof of the wrong dimensions never verifies.
        if self.x.len() != m as usize || self.y.len() != m as usize || self.f.len() != m as usize {
            return None;
        }
        let mut jc: usize = 0;
        let m_us = m as usize;
        while jc < m_us
            invariant
                m_us == self.f@.len(),
                jc <= m_us,
                n >= 2,
                n == statement.params.n,
                m_us == statement.params.m as nat,
                forall|q: int| 0 <= q < jc ==> (#[trigger] self.f@[q])@.len() == n as nat - 1,
            decreases m_us - jc,
        {
            let row = &self.f[jc];
            if row.len() != (n - 1) as usize {
                proof {
                    assert(self.f@[jc as int]@.len() != n as nat - 1);
                    assert(!self.wf(statement.params.n as nat, statement.params.m as nat));
                }
                return None;
            }
            jc = jc + 1;
        }

        // Rebuild the transcript exactly as the prover does.
        proof {
            reveal_strlit("Triptych proof");
            reveal_strlit("version");
            reveal_strlit("message");
            reveal_strlit("params");
            reveal_strlit("M");
            reveal_strlit("J");
            reveal_strlit("A");
            reveal_strlit("B");
            reveal_strlit("C");
            reveal_strlit("D");
            reveal_strlit("X");
            reveal_strlit("Y");
        }
        let mut t = ProofTranscript::new("Triptych proof");
        t.append_u64("version", 0u64);
        match message {
            Some(msg) => t.append("message", msg),
            None => {},
        }
        t.append("params", params.get_hash().as_slice());
        t.append("M", statement.get_input_set().get_hash().as_slice());
        let j_bytes = point_compress(statement.get_J());
        t.append("J", j_bytes.as_slice());
        let ab = point_compress(&self.a);
        t.append("A", ab.as_slice());
        let bb = point_compress(&self.b);
        t.append("B", bb.as_slice());
        let cb = point_compress(&self.c);
        t.append("C", cb.as_slice());
        let db = point_compress(&self.d);
        t.append("D", db.as_slice());
        let ghost hist_abcd = base_history(
            statement.params.hash@,
            statement.input_set.hash@,
            compress_of(statement.j),
            message_view(message),
        ) + op_append("A"@, compress_of(self.a)) + op_append("B"@, compress_of(self.b))
            + op_append("C"@, compress_of(self.c)) + op_append("D"@, compress_of(self.d));
        proof {
            assert(t.history@ =~= hist_abcd);
        }
        let xlen = self.x.len();
        let mut jx: usize = 0;
        while jx < xlen
            invariant
                xlen == self.x@.len(),
                jx <= xlen,
                t.history@ == hist_abcd + points_history("X"@, self.x@, jx as nat),
            decreases xlen - jx,
        {
            proof {
                reveal_strlit("X");
            }
            let xb = point_compress(&self.x[jx]);
            t.append("X", xb.as_slice());
            proof {
                assert(t.history@ =~= hist_abcd + points_history("X"@, self.x@, (jx + 1) as nat));
            }
            jx = jx + 1;
        }
        let ghost hist_x = hist_abcd + points_history("X"@, self.x@, self.x@.len());
        let ylen = self.y.len();
        let mut jy: usize = 0;
        while jy < ylen
            invariant
                ylen == self.y@.len(),
                jy <= ylen,
                t.history@ == hist_x + points_history("Y"@, self.y@, jy as nat),
            decreases ylen - jy,
        {
            proof {
                reveal_strlit("Y");
            }
            let yb = point_compress(&self.y[jy]);
            t.append("Y", yb.as_slice());
            proof {
                assert(t.history@ =~= hist_x + points_history("Y"@, self.y@, (jy + 1) as nat));
            }
            jy = jy + 1;
        }
        let ghost xi = statement_challenge(*statement, message_view(message), *self);
        proof {
            assert(t.history@ =~= full_history(
                statement.params.hash@,
                statement.input_set.hash@,
                compress_of(statement.j),
                message_view(message),
                self.a,
                self.b,
                self.c,
                self.d,
                self.x@,
                self.y@,
            ));
        }
        let xis = match xi_powers(&mut t, m) {
            Ok(v) => v,
            Err(_) => {
                return None;
            },
        };

        // Reconstruct the omitted response column from the challenge.
        let ghost xi1 = xi_pow(xi, 1);
        let ghost ffspec = full_f(f_view(self.f@), xi1);
        let mut ff: Vec<Vec<Scalar>> = Vec::new();
        let mut jr: usize = 0;
        while jr < m_us
            invariant
                m_us == self.f@.len(),
                n >= 2,
                jr <= m_us,
                xis@.len() >= 2,
                xis@[1] == xi1,
                ffspec == full_f(f_view(self.f@), xi1),
                forall|q: int| 0 <= q < m_us ==> (#[trigger] self.f@[q])@.len() == n as nat - 1,
                ff@.len() == jr as nat,
                forall|q: int| 0 <= q < jr ==> (#[trigger] ff@[q])@ == ffspec[q],
                forall|q: int| 0 <= q < jr ==> (#[trigger] ff@[q])@.len() == n as nat,
            decreases m_us - jr,
        {
            let row = &self.f[jr];
            let rlen = row.len();
            let mut acc = scalar_from_u32(0);
            let mut i: usize = 0;
            while i < rlen
                invariant
                    rlen == row@.len(),
                    i <= rlen,
                    acc == seq_sum(row@.take(i as int)),
                decreases rlen - i,
            {
                proof {
                    assert(row@.take(i as int + 1).drop_last() =~= row@.take(i as int));
                    assert(row@.take(i as int + 1).last() == row@[i as int]);
                }
                acc = scalar_add(&acc, &row[i]);
                i = i + 1;
            }
            proof {
                assert(row@.take(rlen as int) =~= row@);
            }
            let mut row_full: Vec<Scalar> = Vec::new();
            row_full.push(scalar_sub(&xis[1], &acc));
            let mut i2: usize = 0;
            while i2 < rlen
                invariant
                    rlen == row@.len(),
                    i2 <= rlen,
                    row_full@.len() == i2 + 1,
                    row_full@[0] == s_sub(xi1, seq_sum(row@)),
                    xis@.len() >= 2,
                    xis@[1] == xi1,
                    forall|q: int| 0 <= q < i2 ==> row_full@[q + 1] == row@[q],
                decreases rlen - i2,
            {
                row_full.push(row[i2]);
                i2 = i2 + 1;
            }
            proof {
                assert(row_full@ =~= full_f_row(row@, xi1));
                assert(ffspec[jr as int] == full_f_row(row@, xi1));
            }
            ff.push(row_full);
            jr = jr + 1;
        }
        Some((xis, ff))
    }

    /// Decides the single verification equation under the given weights.
    fn verify_with_weights(
        &self,
        statement: &Statement,
        message: Option<&[u8]>,
        w1: &Scalar,
        w2: &Scalar,
        w4: &Scalar,
    ) -> (r: bool)
        requires
            statement.wf(),
            message_ok(message),
        ensures
            r == verifies_with(*statement, message_view(message), *self, *w1, *w2, *w4),
    {
        let params = statement.get_params();
        let n = params.get_n();
        let m = params.get_m();
        let number = params.get_N();
        let m_us = m as usize;
        proof {
            crate::lemma_pow_exceeds_exponent(n as nat, m as nat);
        }
        let ghost xi = statement_challenge(*statement, message_view(message), *self);
        let ghost xi1 = xi_pow(xi, 1);
        let ghost ffspec = full_f(f_view(self.f@), xi1);
        let (xis, ff) = match self.challenge_data(statement, message) {
            Some(data) => data,
            None => {
                return false;
            },
        };
        let xlen = self.x.len();
        let ylen = self.y.len();

        // Assemble the scalar list, segment by segment.
        let neg_w1 = scalar_neg(w1);
        let neg_w2 = scalar_neg(w2);
        let neg_w4 = scalar_neg(w4);
        let mut scalars: Vec<Scalar> = Vec::new();
        scalars.push(scalar_neg(&self.z));

        // Commitment-generator scalars, row-major.
        let mut gens_seg: Vec<Scalar> = Vec::new();
        let mut jg: u32 = 0;
        while jg < m
            invariant
                n >= 2,
                jg <= m,
                xis@.len() >= 2,
                xis@[1] == xi1,
                ff@.len() == m as nat,
                forall|q: int| 0 <= q < m as int ==> (#[trigger] ff@[q])@.len() == n as nat,
                forall|q: int| 0 <= q < m as int ==> (#[trigger] ff@[q])@ == ffspec[q],
                gens_seg@.len() == (jg as nat) * (n as nat),
                forall|tq: int|
                    0 <= tq < gens_seg@.len() ==> #[trigger] gens_seg@[tq] == gen_scalar(
                        ffspec[tq / (n as int)][tq % (n as int)],
                        xi1,
                        *w1,
                        *w2,
                    ),
            decreases m - jg,
        {
            let frow = &ff[jg as usize];
            let mut ig: u32 = 0;
            while ig < n
                invariant
                    n >= 2,
                    ig <= n,
                    jg < m,
                    xis@.len() >= 2,
                    xis@[1] == xi1,
                    frow@.len() == n as nat,
                    frow@ == ffspec[jg as int],
                    gens_seg@.len() == (jg as nat) * (n as nat) + ig as nat,
                    forall|tq: int|
                        0 <= tq < gens_seg@.len() ==> #[trigger] gens_seg@[tq] == gen_scalar(
                            ffspec[tq / (n as int)][tq % (n as int)],
                            xi1,
                            *w1,
                            *w2,
                        ),
                decreases n - ig,
            {
                let fv = frow[ig as usize];
                let entry = scalar_add(
                    &scalar_mul(w1, &fv),
                    &scalar_mul(&scalar_mul(w2, &fv), &scalar_sub(&xis[1], &fv)),
                );
                gens_seg.push(entry);
                proof {
                    let t0 = (jg as int) * (n as int) + ig as int;
                    vstd::arithmetic::div_mod::lemma_fundamental_div_mod_converse(
                        t0,
                        n as int,
                        jg as int,
                        ig as int,
                    );
                }
                ig = ig + 1;
            }
            proof {
                assert((jg as nat) * (n as nat) + (n as nat) == ((jg + 1) as nat) * (n as nat))
                    by (nonlinear_arith);
            }
            jg = jg + 1;
        }
        proof {
            assert(gens_seg@ =~= Seq::new(
                (m as nat) * (n as nat),
                |t0: int| gen_scalar(ffspec[t0 / (n as int)][t0 % (n as int)], xi1, *w1, *w2),
            ));
        }
        scalars.append(&mut gens_seg);
        scalars.push(scalar_add(&scalar_mul(w1, &self.z_a), &scalar_mul(w2, &self.z_c)));
        scalars.push(neg_w1);
        scalars.push(scalar_mul(&neg_w1, &xis[1]));
        scalars.push(scalar_mul(&neg_w2, &xis[1]));
        scalars.push(neg_w2);
        scalars.push(scalar_mul(&neg_w4, &self.z));

        // Scalars on X and Y: negated challenge powers.
        let mut x_seg: Vec<Scalar> = Vec::new();
        let mut qx: usize = 0;
        while qx < m_us
            invariant
                qx <= m_us,
                m_us == m as nat,
                xis@.len() == m + 1,
                forall|q: int| 0 <= q <= m as int ==> xis@[q] == xi_pow(xi, q as nat),
                x_seg@.len() == qx as nat,
                forall|q: int| 0 <= q < qx ==> #[trigger] x_seg@[q] == s_neg(xi_pow(xi, q as nat)),
            decreases m_us - qx,
        {
            x_seg.push(scalar_neg(&xis[qx]));
            qx = qx + 1;
        }
        proof {
            assert(x_seg@ =~= Seq::new(m as nat, |q: int| s_neg(xi_pow(xi, q as nat))));
        }
        scalars.append(&mut x_seg);
        let mut y_seg: Vec<Scalar> = Vec::new();
        let mut qy: usize = 0;
        while qy < m_us
            invariant
                qy <= m_us,
                m_us == m as nat,
                xis@.len() == m + 1,
                neg_w4 == s_neg(*w4),
                forall|q: int| 0 <= q <= m as int ==> xis@[q] == xi_pow(xi, q as nat),
                y_seg@.len() == qy as nat,
                forall|q: int|
                    0 <= q < qy ==> #[trigger] y_seg@[q] == s_mul(s_neg(*w4), xi_pow(xi, q as nat)),
            decreases m_us - qy,
        {
            y_seg.push(scalar_mul(&neg_w4, &xis[qy]));
            qy = qy + 1;
        }
        proof {
            assert(y_seg@ =~= Seq::new(m as nat, |q: int| s_mul(s_neg(*w4), xi_pow(xi, q as nat))));
        }
        scalars.append(&mut y_seg);

        // Scalars on the input set, and their running sum for U.
        let mut m_seg: Vec<Scalar> = Vec::new();
        let mut u_acc = scalar_from_u32(0);
        let mut kq: u32 = 0;
        while kq < number
            invariant
                n >= 2,
                m >= 2,
                m < u32::MAX,
                m_us == m as nat,
                number as int == pow(n as int, m as nat),
                params.wf(),
                params == statement.params,
                n == params.n,
                m == params.m,
                number == params.number,
                kq <= number,
                ff@.len() == m as nat,
                forall|q: int| 0 <= q < m as int ==> (#[trigger] ff@[q])@.len() == n as nat,
                forall|q: int| 0 <= q < m as int ==> (#[trigger] ff@[q])@ == ffspec[q],
                m_seg@.len() == kq as nat,
                forall|q: int|
                    0 <= q < kq ==> #[trigger] m_seg@[q] == f_product(
                        ffspec,
                        q as nat,
                        n as nat,
                        m as nat,
                    ),
                u_acc == f_product_sum(ffspec, n as nat, m as nat, kq as nat),
            decreases number - kq,
        {
            let k_decomposed = match params.decompose(kq) {
                Ok(d) => d,
                Err(_) => {
                    // Unreachable: the index is below N, so decomposition
                    // succeeds.
                    proof {
                        assert(false);
                    }
                    return false;
                },
            };
            proof {
                assert forall|q: int| 0 <= q < m as int implies (k_decomposed@[q] as int)
                    < n as int by {
                    assert((k_decomposed@[q] as nat) == digits(kq as nat, n as nat, m as nat)[q]);
                }
            }
            let mut prod = scalar_from_u32(1);
            let mut jp: usize = 0;
            while jp < m_us
                invariant
                    n >= 2,
                    m_us == m as nat,
                    jp <= m_us,
                    ff@.len() == m as nat,
                    k_decomposed@.len() == m as nat,
                    forall|q: int| 0 <= q < m as int ==> (k_decomposed@[q] as int) < n as int,
                    forall|q: int|
                        0 <= q < m as int ==> (k_decomposed@[q] as nat) == digits(
                            kq as nat,
                            n as nat,
                            m as nat,
                        )[q],
                    forall|q: int| 0 <= q < m as int ==> (#[trigger] ff@[q])@.len() == n as nat,
                    forall|q: int| 0 <= q < m as int ==> (#[trigger] ff@[q])@ == ffspec[q],
                    prod == f_product_prefix(ffspec, kq as nat, n as nat, m as nat, jp as nat),
                decreases m_us - jp,
            {
                let frow = &ff[jp];
                let didx = k_decomposed[jp] as usize;
                prod = scalar_mul(&prod, &frow[didx]);
                jp = jp + 1;
            }
            proof {
                assert(prod == f_product(ffspec, kq as nat, n as nat, m as nat));
            }
            m_seg.push(prod);
            u_acc = scalar_add(&u_acc, &prod);
            kq = kq + 1;
        }
        proof {
            assert(m_seg@ =~= Seq::new(
                number as nat,
                |q: int| f_product(ffspec, q as nat, n as nat, m as nat),
            ));
        }
        scalars.append(&mut m_seg);
        scalars.push(scalar_mul(w4, &u_acc));

        // Assemble the point list in the same order.
        let mut points: Vec<RistrettoPoint> = Vec::new();
        points.push(*params.get_G());
        let gens = params.get_CommitmentG();
        let glen = gens.len();
        let mut pg: usize = 0;
        while pg < glen
            invariant
                glen == gens@.len(),
                pg <= glen,
                gens == params.commitment_g,
                points@ =~= seq![params.g] + gens@.take(pg as int),
            decreases glen - pg,
        {
            points.push(gens[pg]);
            pg = pg + 1;
        }
        points.push(*params.get_CommitmentH());
        points.push(self.a);
        points.push(self.b);
        points.push(self.c);
        points.push(self.d);
        points.push(*statement.get_J());
        let ghost head = seq![params.g] + params.commitment_g@ + seq![
            params.commitment_h,
            self.a,
            self.b,
            self.c,
            self.d,
            statement.j,
        ];
        proof {
            assert(points@ =~= head);
        }
        let mut px: usize = 0;
        while px < xlen
            invariant
                xlen == self.x@.len(),
                px <= xlen,
                points@ =~= head + self.x@.take(px as int),
            decreases xlen - px,
        {
            points.push(self.x[px]);
            px = px + 1;
        }
        let mut py: usize = 0;
        while py < ylen
            invariant
                ylen == self.y@.len(),
                py <= ylen,
                points@ =~= head + self.x@ + self.y@.take(py as int),
            decreases ylen - py,
        {
            points.push(self.y[py]);
            py = py + 1;
        }
        let keys = statement.get_input_set().get_keys();
        let klen = keys.len();
        let mut pk: usize = 0;
        while pk < klen
            invariant
                klen == keys@.len(),
                pk <= klen,
                keys == statement.input_set.keys,
                points@ =~= head + self.x@ + self.y@ + keys@.take(pk as int),
            decreases klen - pk,
        {
            points.push(keys[pk]);
            pk = pk + 1;
        }
        points.push(*params.get_U());
        proof {
            assert(points@ =~= verification_points(*statement, *self));
            assert(scalars@ =~= verification_scalars(*statement, *self, xi, *w1, *w2, *w4));
        }

        // One variable-time multiscalar multiplication decides everything.
        let sum = crate::group::vartime_multiscalar_mul(&scalars, &points);
        let id = crate::group::point_identity();
        point_eq(&sum, &id)
    }

    /// Verifies a Triptych proof against `statement` and the same optional
    /// `message` it was generated with.
    ///
    /// The verification weights are drawn fresh from `rng`; the result is the
    /// single multiscalar verification equation under those weights, and is
    /// always false for a misshapen proof or a zero challenge power.
    pub fn verify<R: CryptoRngCore>(
        &self,
        statement: &Statement,
        message: Option<&[u8]>,
        rng: &mut R,
    ) -> (r: bool)
        requires
            statement.wf(),
            message_ok(message),
        ensures
            exists|w1: Scalar, w2: Scalar, w4: Scalar|
                r == verifies_with(*statement, message_view(message), *self, w1, w2, w4),
            !self.wf(statement.params.n as nat, statement.params.m as nat) ==> !r,
            !powers_nonzero(
                statement_challenge(*statement, message_view(message), *self),
                statement.params.m as nat,
            ) ==> !r,
    {
        let w1 = scalar_random(rng);
        let w2 = scalar_random(rng);
        let w4 = scalar_random(rng);
        let r = self.verify_with_weights(statement, message, &w1, &w2, &w4);
        proof {
            assert(r == verifies_with(*statement, message_view(message), *self, w1, w2, w4));
        }
        r
    }

    /// Verifies a batch of proofs sharing one parameter set and input set,
    /// folding all checks into a single multiscalar multiplication with
    /// fresh independent weights per proof.
    ///
    /// Rejects outright on mismatched lengths, on statements that do not
    /// share the first statement's parameters and input set, on a misshapen
    /// proof, and on any zero challenge power; an empty batch is accepted.
    pub fn verify_batch<R: CryptoRngCore>(
        statements: &Vec<Statement>,
        proofs: &Vec<Proof>,
        messages: &Vec<Option<&[u8]>>,
        rng: &mut R,
    ) -> (r: bool)
        requires
            forall|i: int| 0 <= i < statements@.len() ==> (#[trigger] statements@[i]).wf(),
            forall|i: int| 0 <= i < messages@.len() ==> message_ok(#[trigger] messages@[i]),
        ensures
            statements@.len() != proofs@.len() || statements@.len() != messages@.len() ==> !r,
            statements@.len() == proofs@.len() && statements@.len() == messages@.len()
                && statements@.len() == 0 ==> r,
            r ==> statements@.len() == 0 || batch_coherent(
                statements@,
                messages_view(messages@),
                proofs@,
            ),
            batch_coherent(statements@, messages_view(messages@), proofs@) ==> exists|
                w1s: Seq<Scalar>,
                w2s: Seq<Scalar>,
                w4s: Seq<Scalar>,
            |
                w1s.len() == proofs@.len() && w2s.len() == proofs@.len() && w4s.len()
                    == proofs@.len() && r == batch_verifies_with(
                    statements@,
                    messages_view(messages@),
                    proofs@,
                    w1s,
                    w2s,
                    w4s,
                ),
    {
        let b = statements.len();
        if proofs.len() != b || messages.len() != b {
            return false;
        }
        if b == 0 {
            return true;
        }
        let ghost msgs = messages_view(messages@);
        let stmt0 = &statements[0];
        let params = stmt0.get_params();
        let n = params.get_n();
        let m = params.get_m();
        let number = params.get_N();
        let m_us = m as usize;
        proof {
            crate::lemma_pow_exceeds_exponent(n as nat, m as nat);
        }

        // Every statement must share the first one's parameters and input
        // set.
        let mut ic: usize = 0;
        while ic < b
            invariant
                b == statements@.len(),
                ic <= b,
                forall|q: int| 0 <= q < statements@.len() ==> (#[trigger] statements@[q]).wf(),
                params == statements@[0].params,
                stmt0 == statements@[0],
                n == params.n,
                m == params.m,
                number == params.number,
                forall|q: int|
                    0 <= q < ic ==> (#[trigger] statements@[q]).params.hash@
                        == statements@[0].params.hash@,
                forall|q: int|
                    0 <= q < ic ==> (#[trigger] statements@[q]).input_set.hash@
                        == statements@[0].input_set.hash@,
                forall|q: int| 0 <= q < ic ==> (#[trigger] statements@[q]).params.n == n,
                forall|q: int| 0 <= q < ic ==> (#[trigger] statements@[q]).params.m == m,
                forall|q: int| 0 <= q < ic ==> (#[trigger] statements@[q]).params.number == number,
            decreases b - ic,
        {
            let st = &statements[ic];
            if !crate::bytes_eq(st.get_params().get_hash(), params.get_hash()) {
                return false;
            }
            if !crate::bytes_eq(st.get_input_set().get_hash(), stmt0.get_input_set().get_hash()) {
                return false;
            }
            if st.get_params().get_n() != n || st.get_params().get_m() != m
                || st.get_params().get_N() != number {
                return false;
            }
            ic = ic + 1;
        }

        // Draw the challenge data and fresh weights for every proof.
        let mut xis_all: Vec<Vec<Scalar>> = Vec::new();
        let mut ffs: Vec<Vec<Vec<Scalar>>> = Vec::new();
        let mut w1s: Vec<Scalar> = Vec::new();
        let mut w2s: Vec<Scalar> = Vec::new();
        let mut w4s: Vec<Scalar> = Vec::new();
        let mut id: usize = 0;
        while id < b
            invariant
                b == statements@.len(),
                b == proofs@.len(),
                b == messages@.len(),
                b >= 1,
                id <= b,
                msgs == messages_view(messages@),
                forall|q: int| 0 <= q < messages@.len() ==> message_ok(#[trigger] messages@[q]),
                forall|q: int| 0 <= q < statements@.len() ==> (#[trigger] statements@[q]).wf(),
                params == statements@[0].params,
                n == params.n,
                m == params.m,
                m >= 2,
                number == params.number,
                m_us == m as nat,
                forall|q: int| 0 <= q < b ==> (#[trigger] statements@[q]).params.n == n,
                forall|q: int| 0 <= q < b ==> (#[trigger] statements@[q]).params.m == m,
                xis_all@.len() == id as nat,
                ffs@.len() == id as nat,
                w1s@.len() == id as nat,
                w2s@.len() == id as nat,
                w4s@.len() == id as nat,
                forall|q: int|
                    0 <= q < id ==> (#[trigger] proofs@[q]).wf(n as nat, m as nat),
                forall|q: int|
                    0 <= q < id ==> powers_nonzero(
                        #[trigger] batch_xi(statements@, msgs, proofs@, q),
                        m as nat,
                    ),
                forall|q: int| 0 <= q < id ==> (#[trigger] xis_all@[q])@.len() == m + 1,
                forall|q: int, e: int|
                    0 <= q < id && 0 <= e <= m as int ==> (#[trigger] xis_all@[q]@[e]) == xi_pow(
                        batch_xi(statements@, msgs, proofs@, q),
                        e as nat,
                    ),
                forall|q: int| 0 <= q < id ==> (#[trigger] ffs@[q])@.len() == m as nat,
                forall|q: int, e: int|
                    0 <= q < id && 0 <= e < m as int ==> (#[trigger] ffs@[q]@[e])@ == batch_ff(
                        statements@,
                        msgs,
                        proofs@,
                        q,
                    )[e],
                forall|q: int, e: int|
                    0 <= q < id && 0 <= e < m as int ==> (#[trigger] ffs@[q]@[e])@.len()
                        == n as nat,
            decreases b - id,
        {
            let pr = &proofs[id];
            let st = &statements[id];
            let msg = messages[id];
            proof {
                assert(msgs[id as int] == message_view(msg));
            }
            let data = match pr.challenge_data(st, msg) {
                Some(d) => d,
                None => {
                    proof {
                        assert(!(proofs@[id as int].wf(n as nat, m as nat) && powers_nonzero(
                            batch_xi(statements@, msgs, proofs@, id as int),
                            m as nat,
                        )));
                    }
                    return false;
                },
            };
            let (xis, ff) = data;
            xis_all.push(xis);
            ffs.push(ff);
            w1s.push(crate::group::scalar_random(rng));
            w2s.push(crate::group::scalar_random(rng));
            w4s.push(crate::group::scalar_random(rng));
            id = id + 1;
        }

        // The scalar list, segment by segment; shared entries are summed
        // across proofs.
        let ghost gw1 = w1s@;
        let ghost gw2 = w2s@;
        let ghost gw4 = w4s@;
        let mut scalars: Vec<Scalar> = Vec::new();
        let mut zacc = scalar_from_u32(0);
        let mut iz: usize = 0;
        while iz < b
            invariant
                b == proofs@.len(),
                iz <= b,
                zacc == batch_neg_z(proofs@, iz as nat),
            decreases b - iz,
        {
            let t0 = scalar_neg(&proofs[iz].z);
            zacc = scalar_add(&zacc, &t0);
            iz = iz + 1;
        }
        scalars.push(zacc);

        let mut gens_seg: Vec<Scalar> = Vec::new();
        let mut jg: u32 = 0;
        while jg < m
            invariant
                b == statements@.len(),
                b == proofs@.len(),
                b == messages@.len(),
                b >= 1,
                jg <= m,
                n >= 2,
                msgs == messages_view(messages@),
                params == statements@[0].params,
                n == params.n,
                m == params.m,
                gw1 == w1s@,
                gw2 == w2s@,
                w1s@.len() == b,
                w2s@.len() == b,
                xis_all@.len() == b,
                ffs@.len() == b,
                forall|q: int| 0 <= q < b ==> (#[trigger] xis_all@[q])@.len() == m + 1,
                forall|q: int, e: int|
                    0 <= q < b && 0 <= e <= m as int ==> (#[trigger] xis_all@[q]@[e]) == xi_pow(
                        batch_xi(statements@, msgs, proofs@, q),
                        e as nat,
                    ),
                forall|q: int| 0 <= q < b ==> (#[trigger] ffs@[q])@.len() == m as nat,
                forall|q: int, e: int|
                    0 <= q < b && 0 <= e < m as int ==> (#[trigger] ffs@[q]@[e])@ == batch_ff(
                        statements@,
                        msgs,
                        proofs@,
                        q,
                    )[e],
                forall|q: int, e: int|
                    0 <= q < b && 0 <= e < m as int ==> (#[trigger] ffs@[q]@[e])@.len()
                        == n as nat,
                gens_seg@.len() == (jg as nat) * (n as nat),
                forall|tq: int|
                    0 <= tq < gens_seg@.len() ==> #[trigger] gens_seg@[tq] == batch_gen_sum(
                        statements@,
                        msgs,
                        proofs@,
                        gw1,
                        gw2,
                        tq,
                        b as nat,
                    ),
            decreases m - jg,
        {
            let mut ig: u32 = 0;
            while ig < n
                invariant
                    b == statements@.len(),
                    b == proofs@.len(),
                    b == messages@.len(),
                    b >= 1,
                    jg < m,
                    ig <= n,
                    n >= 2,
                    msgs == messages_view(messages@),
                    params == statements@[0].params,
                    n == params.n,
                    m == params.m,
                    gw1 == w1s@,
                    gw2 == w2s@,
                    w1s@.len() == b,
                    w2s@.len() == b,
                    xis_all@.len() == b,
                    ffs@.len() == b,
                    forall|q: int| 0 <= q < b ==> (#[trigger] xis_all@[q])@.len() == m + 1,
                    forall|q: int, e: int|
                        0 <= q < b && 0 <= e <= m as int ==> (#[trigger] xis_all@[q]@[e])
                            == xi_pow(batch_xi(statements@, msgs, proofs@, q), e as nat),
                    forall|q: int| 0 <= q < b ==> (#[trigger] ffs@[q])@.len() == m as nat,
                    forall|q: int, e: int|
                        0 <= q < b && 0 <= e < m as int ==> (#[trigger] ffs@[q]@[e])@ == batch_ff(
                            statements@,
                            msgs,
                            proofs@,
                            q,
                        )[e],
                    forall|q: int, e: int|
                        0 <= q < b && 0 <= e < m as int ==> (#[trigger] ffs@[q]@[e])@.len()
                            == n as nat,
                    gens_seg@.len() == (jg as nat) * (n as nat) + ig as nat,
                    forall|tq: int|
                        0 <= tq < gens_seg@.len() ==> #[trigger] gens_seg@[tq] == batch_gen_sum(
                            statements@,
                            msgs,
                            proofs@,
                            gw1,
                            gw2,
                            tq,
                            b as nat,
                        ),
                decreases n - ig,
            {
                let ghost t0 = (jg as int) * (n as int) + ig as int;
                let mut acc = scalar_from_u32(0);
                let mut ia: usize = 0;
                while ia < b
                    invariant
                        b == statements@.len(),
                        b == proofs@.len(),
                        b == messages@.len(),
                        ia <= b,
                        jg < m,
                        ig < n,
                        n >= 2,
                        t0 == (jg as int) * (n as int) + ig as int,
                        msgs == messages_view(messages@),
                        params == statements@[0].params,
                        n == params.n,
                        m == params.m,
                        gw1 == w1s@,
                        gw2 == w2s@,
                        w1s@.len() == b,
                        w2s@.len() == b,
                        xis_all@.len() == b,
                        ffs@.len() == b,
                        forall|q: int| 0 <= q < b ==> (#[trigger] xis_all@[q])@.len() == m + 1,
                        forall|q: int, e: int|
                            0 <= q < b && 0 <= e <= m as int ==> (#[trigger] xis_all@[q]@[e])
                                == xi_pow(batch_xi(statements@, msgs, proofs@, q), e as nat),
                        forall|q: int| 0 <= q < b ==> (#[trigger] ffs@[q])@.len() == m as nat,
                        forall|q: int, e: int|
                            0 <= q < b && 0 <= e < m as int ==> (#[trigger] ffs@[q]@[e])@
                                == batch_ff(statements@, msgs, proofs@, q)[e],
                        forall|q: int, e: int|
                            0 <= q < b && 0 <= e < m as int ==> (#[trigger] ffs@[q]@[e])@.len()
                                == n as nat,
                        acc == batch_gen_sum(statements@, msgs, proofs@, gw1, gw2, t0, ia as nat),
                    decreases b - ia,
                {
                    proof {
                        vstd::arithmetic::div_mod::lemma_fundamental_div_mod_converse(
                            t0,
                            n as int,
                            jg as int,
                            ig as int,
                        );
                    }
                    let ffp = &ffs[ia];
                    let frow = &ffp[jg as usize];
                    let fv = frow[ig as usize];
                    let xisp = &xis_all[ia];
                    let term = scalar_add(
                        &scalar_mul(&w1s[ia], &fv),
                        &scalar_mul(&scalar_mul(&w2s[ia], &fv), &scalar_sub(&xisp[1], &fv)),
                    );
                    acc = scalar_add(&acc, &term);
                    ia = ia + 1;
                }
                gens_seg.push(acc);
                proof {
                    vstd::arithmetic::div_mod::lemma_fundamental_div_mod_converse(
                        t0,
                        n as int,
                        jg as int,
                        ig as int,
                    );
                }
                ig = ig + 1;
            }
            proof {
                assert((jg as nat) * (n as nat) + (n as nat) == ((jg + 1) as nat) * (n as nat))
                    by (nonlinear_arith);
            }
            jg = jg + 1;
        }
        proof {
            assert(gens_seg@ =~= Seq::new(
                (m as nat) * (n as nat),
                |t0: int| batch_gen_sum(statements@, msgs, proofs@, gw1, gw2, t0, b as nat),
            ));
        }
        scalars.append(&mut gens_seg);

        let mut hacc = scalar_from_u32(0);
        let mut ih: usize = 0;
        while ih < b
            invariant
                b == proofs@.len(),
                ih <= b,
                gw1 == w1s@,
                gw2 == w2s@,
                w1s@.len() == b,
                w2s@.len() == b,
                hacc == batch_h_sum(proofs@, gw1, gw2, ih as nat),
            decreases b - ih,
        {
            let term = scalar_add(
                &scalar_mul(&w1s[ih], &proofs[ih].z_a),
                &scalar_mul(&w2s[ih], &proofs[ih].z_c),
            );
            hacc = scalar_add(&hacc, &term);
            ih = ih + 1;
        }
        scalars.push(hacc);
        let ghost scalars_head = seq![batch_neg_z(proofs@, b as nat)] + Seq::new(
            (m as nat) * (n as nat),
            |t0: int| batch_gen_sum(statements@, msgs, proofs@, gw1, gw2, t0, b as nat),
        ) + seq![batch_h_sum(proofs@, gw1, gw2, b as nat)];
        proof {
            assert(scalars@ =~= scalars_head);
        }

        // Per-proof scalar blocks.
        let mut ib: usize = 0;
        while ib < b
            invariant
                b == statements@.len(),
                b == proofs@.len(),
                b == messages@.len(),
                ib <= b,
                m >= 2,
                msgs == messages_view(messages@),
                params == statements@[0].params,
                m == params.m,
                m_us == m as nat,
                gw1 == w1s@,
                gw2 == w2s@,
                gw4 == w4s@,
                w1s@.len() == b,
                w2s@.len() == b,
                w4s@.len() == b,
                xis_all@.len() == b,
                forall|q: int| 0 <= q < b ==> (#[trigger] statements@[q]).params.m == m,
                forall|q: int| 0 <= q < b ==> (#[trigger] xis_all@[q])@.len() == m + 1,
                forall|q: int, e: int|
                    0 <= q < b && 0 <= e <= m as int ==> (#[trigger] xis_all@[q]@[e]) == xi_pow(
                        batch_xi(statements@, msgs, proofs@, q),
                        e as nat,
                    ),
                scalars@ == scalars_head + batch_block_scalars(
                    statements@,
                    msgs,
                    proofs@,
                    gw1,
                    gw2,
                    gw4,
                    ib as nat,
                ),
            decreases b - ib,
        {
            let ghost before = scalars@;
            let ghost bxi = batch_xi(statements@, msgs, proofs@, ib as int);
            let neg_w1i = scalar_neg(&w1s[ib]);
            let neg_w2i = scalar_neg(&w2s[ib]);
            let neg_w4i = scalar_neg(&w4s[ib]);
            let xisp = &xis_all[ib];
            scalars.push(neg_w1i);
            scalars.push(scalar_mul(&neg_w1i, &xisp[1]));
            scalars.push(scalar_mul(&neg_w2i, &xisp[1]));
            scalars.push(neg_w2i);
            scalars.push(scalar_mul(&neg_w4i, &proofs[ib].z));
            let ghost five = seq![
                s_neg(gw1[ib as int]),
                s_mul(s_neg(gw1[ib as int]), xi_pow(bxi, 1)),
                s_mul(s_neg(gw2[ib as int]), xi_pow(bxi, 1)),
                s_neg(gw2[ib as int]),
                s_mul(s_neg(gw4[ib as int]), proofs@[ib as int].z),
            ];
            proof {
                assert(scalars@ =~= before + five);
            }
            let mut qx: usize = 0;
            while qx < m_us
                invariant
                    qx <= m_us,
                    ib < b,
                    m_us == m as nat,
                    xis_all@.len() == b,
                    xisp == xis_all@[ib as int],
                    xisp@.len() == m + 1,
                    bxi == batch_xi(statements@, msgs, proofs@, ib as int),
                    forall|e: int|
                        0 <= e <= m as int ==> (#[trigger] xisp@[e]) == xi_pow(bxi, e as nat),
                    scalars@ == before + five + Seq::new(
                        qx as nat,
                        |q: int| s_neg(xi_pow(bxi, q as nat)),
                    ),
                decreases m_us - qx,
            {
                scalars.push(scalar_neg(&xisp[qx]));
                proof {
                    assert(scalars@ =~= before + five + Seq::new(
                        (qx + 1) as nat,
                        |q: int| s_neg(xi_pow(bxi, q as nat)),
                    ));
                }
                qx = qx + 1;
            }
            let ghost xpart = Seq::new(m as nat, |q: int| s_neg(xi_pow(bxi, q as nat)));
            let mut qy: usize = 0;
            while qy < m_us
                invariant
                    qy <= m_us,
                    ib < b,
                    m_us == m as nat,
                    xis_all@.len() == b,
                    gw4 == w4s@,
                    w4s@.len() == b,
                    neg_w4i == s_neg(gw4[ib as int]),
                    xisp == xis_all@[ib as int],
                    xisp@.len() == m + 1,
                    bxi == batch_xi(statements@, msgs, proofs@, ib as int),
                    forall|e: int|
                        0 <= e <= m as int ==> (#[trigger] xisp@[e]) == xi_pow(bxi, e as nat),
                    scalars@ == before + five + xpart + Seq::new(
                        qy as nat,
                        |q: int| s_mul(s_neg(gw4[ib as int]), xi_pow(bxi, q as nat)),
                    ),
                decreases m_us - qy,
            {
                scalars.push(scalar_mul(&neg_w4i, &xisp[qy]));
                proof {
                    assert(scalars@ =~= before + five + xpart + Seq::new(
                        (qy + 1) as nat,
                        |q: int| s_mul(s_neg(gw4[ib as int]), xi_pow(bxi, q as nat)),
                    ));
                }
                qy = qy + 1;
            }
            proof {
                assert(five + xpart + Seq::new(
                    m as nat,
                    |q: int| s_mul(s_neg(gw4[ib as int]), xi_pow(bxi, q as nat)),
                ) =~= proof_block_scalars(
                    statements@[ib as int],
                    msgs[ib as int],
                    proofs@[ib as int],
                    gw1[ib as int],
                    gw2[ib as int],
                    gw4[ib as int],
                ));
                assert(scalars@ =~= scalars_head + batch_block_scalars(
                    statements@,
                    msgs,
                    proofs@,
                    gw1,
                    gw2,
                    gw4,
                    (ib + 1) as nat,
                ));
            }
            ib = ib + 1;
        }
        // Input-set scalars: per entry, summed across proofs.
        let mut m_seg: Vec<Scalar> = Vec::new();
        let mut kq: u32 = 0;
        while kq < number
            invariant
                b == statements@.len(),
                b == proofs@.len(),
                b == messages@.len(),
                kq <= number,
                n >= 2,
                m >= 2,
                m < u32::MAX,
                m_us == m as nat,
                msgs == messages_view(messages@),
                params == statements@[0].params,
                params.wf(),
                n == params.n,
                m == params.m,
                number == params.number,
                number as int == pow(n as int, m as nat),
                ffs@.len() == b,
                forall|q: int| 0 <= q < b ==> (#[trigger] ffs@[q])@.len() == m as nat,
                forall|q: int, e: int|
                    0 <= q < b && 0 <= e < m as int ==> (#[trigger] ffs@[q]@[e])@ == batch_ff(
                        statements@,
                        msgs,
                        proofs@,
                        q,
                    )[e],
                forall|q: int, e: int|
                    0 <= q < b && 0 <= e < m as int ==> (#[trigger] ffs@[q]@[e])@.len()
                        == n as nat,
                m_seg@.len() == kq as nat,
                forall|q: int|
                    0 <= q < kq ==> #[trigger] m_seg@[q] == batch_m_sum(
                        statements@,
                        msgs,
                        proofs@,
                        q as nat,
                        b as nat,
                    ),
            decreases number - kq,
        {
            let k_decomposed = match params.decompose(kq) {
                Ok(d) => d,
                Err(_) => {
                    // Unreachable: the index is below N, so decomposition
                    // succeeds.
                    proof {
                        assert(false);
                    }
                    return false;
                },
            };
            proof {
                assert forall|q: int| 0 <= q < m as int implies (k_decomposed@[q] as int)
                    < n as int by {
                    assert((k_decomposed@[q] as nat) == digits(kq as nat, n as nat, m as nat)[q]);
                }
            }
            let mut acc = scalar_from_u32(0);
            let mut ia: usize = 0;
            while ia < b
                invariant
                    b == statements@.len(),
                    b == proofs@.len(),
                    b == messages@.len(),
                    ia <= b,
                    n >= 2,
                    m_us == m as nat,
                    msgs == messages_view(messages@),
                    params == statements@[0].params,
                    n == params.n,
                    m == params.m,
                    k_decomposed@.len() == m as nat,
                    forall|q: int| 0 <= q < m as int ==> (k_decomposed@[q] as int) < n as int,
                    forall|q: int|
                        0 <= q < m as int ==> (k_decomposed@[q] as nat) == digits(
                            kq as nat,
                            n as nat,
                            m as nat,
                        )[q],
                    ffs@.len() == b,
                    forall|q: int| 0 <= q < b ==> (#[trigger] ffs@[q])@.len() == m as nat,
                    forall|q: int, e: int|
                        0 <= q < b && 0 <= e < m as int ==> (#[trigger] ffs@[q]@[e])@ == batch_ff(
                            statements@,
                            msgs,
                            proofs@,
                            q,
                        )[e],
                    forall|q: int, e: int|
                        0 <= q < b && 0 <= e < m as int ==> (#[trigger] ffs@[q]@[e])@.len()
                            == n as nat,
                    acc == batch_m_sum(statements@, msgs, proofs@, kq as nat, ia as nat),
                decreases b - ia,
            {
                let ffp = &ffs[ia];
                let mut prod = scalar_from_u32(1);
                let mut jp: usize = 0;
                while jp < m_us
                    invariant
                        jp <= m_us,
                        ia < b,
                        n >= 2,
                        m_us == m as nat,
                        ffp == ffs@[ia as int],
                        ffp@.len() == m as nat,
                        k_decomposed@.len() == m as nat,
                        forall|q: int| 0 <= q < m as int ==> (k_decomposed@[q] as int) < n as int,
                        forall|q: int|
                            0 <= q < m as int ==> (k_decomposed@[q] as nat) == digits(
                                kq as nat,
                                n as nat,
                                m as nat,
                            )[q],
                        forall|e: int|
                            0 <= e < m as int ==> (#[trigger] ffp@[e])@ == batch_ff(
                                statements@,
                                msgs,
                                proofs@,
                                ia as int,
                            )[e],
                        forall|e: int|
                            0 <= e < m as int ==> (#[trigger] ffp@[e])@.len() == n as nat,
                        prod == f_product_prefix(
                            batch_ff(statements@, msgs, proofs@, ia as int),
                            kq as nat,
                            n as nat,
                            m as nat,
                            jp as nat,
                        ),
                    decreases m_us - jp,
                {
                    let frow = &ffp[jp];
                    let didx = k_decomposed[jp] as usize;
                    prod = scalar_mul(&prod, &frow[didx]);
                    jp = jp + 1;
                }
                acc = scalar_add(&acc, &prod);
                ia = ia + 1;
            }
            m_seg.push(acc);
            kq = kq + 1;
        }
        proof {
            assert(m_seg@ =~= Seq::new(
                number as nat,
                |q: int| batch_m_sum(statements@, msgs, proofs@, q as nat, b as nat),
            ));
        }
        scalars.append(&mut m_seg);

        // The linking-tag generator scalar: each proof's product sum, taken
        // once more with its own weight.
        let mut uacc = scalar_from_u32(0);
        let mut iu: usize = 0;
        while iu < b
            invariant
                b == statements@.len(),
                b == proofs@.len(),
                b == messages@.len(),
                iu <= b,
                n >= 2,
                m >= 2,
                m < u32::MAX,
                m_us == m as nat,
                msgs == messages_view(messages@),
                params == statements@[0].params,
                params.wf(),
                n == params.n,
                m == params.m,
                number == params.number,
                number as int == pow(n as int, m as nat),
                gw4 == w4s@,
                w4s@.len() == b,
                ffs@.len() == b,
                forall|q: int| 0 <= q < b ==> (#[trigger] ffs@[q])@.len() == m as nat,
                forall|q: int, e: int|
                    0 <= q < b && 0 <= e < m as int ==> (#[trigger] ffs@[q]@[e])@ == batch_ff(
                        statements@,
                        msgs,
                        proofs@,
                        q,
                    )[e],
                forall|q: int, e: int|
                    0 <= q < b && 0 <= e < m as int ==> (#[trigger] ffs@[q]@[e])@.len()
                        == n as nat,
                uacc == batch_u_sum(statements@, msgs, proofs@, gw4, iu as nat),
            decreases b - iu,
        {
            let ffp = &ffs[iu];
            let mut psum = scalar_from_u32(0);
            let mut kq2: u32 = 0;
            while kq2 < number
                invariant
                    kq2 <= number,
                    iu < b,
                    n >= 2,
                    m >= 2,
                    m < u32::MAX,
                    m_us == m as nat,
                    params.wf(),
                    params == statements@[0].params,
                    n == params.n,
                    m == params.m,
                    number == params.number,
                    number as int == pow(n as int, m as nat),
                    ffp == ffs@[iu as int],
                    ffp@.len() == m as nat,
                    msgs == messages_view(messages@),
                    forall|e: int|
                        0 <= e < m as int ==> (#[trigger] ffp@[e])@ == batch_ff(
                            statements@,
                            msgs,
                            proofs@,
                            iu as int,
                        )[e],
                    forall|e: int|
                        0 <= e < m as int ==> (#[trigger] ffp@[e])@.len() == n as nat,
                    psum == f_product_sum(
                        batch_ff(statements@, msgs, proofs@, iu as int),
                        n as nat,
                        m as nat,
                        kq2 as nat,
                    ),
                decreases number - kq2,
            {
                let k_decomposed = match params.decompose(kq2) {
                    Ok(d) => d,
                    Err(_) => {
                        // Unreachable: the index is below N, so
                        // decomposition succeeds.
                        proof {
                            assert(false);
                        }
                        return false;
                    },
                };
                proof {
                    assert forall|q: int| 0 <= q < m as int implies (k_decomposed@[q] as int)
                        < n as int by {
                        assert((k_decomposed@[q] as nat) == digits(
                            kq2 as nat,
                            n as nat,
                            m as nat,
                        )[q]);
                    }
                }
                let mut prod = scalar_from_u32(1);
                let mut jp: usize = 0;
                while jp < m_us
                    invariant
                        jp <= m_us,
                        iu < b,
                        n >= 2,
                        m_us == m as nat,
                        ffp == ffs@[iu as int],
                        ffp@.len() == m as nat,
                        msgs == messages_view(messages@),
                        k_decomposed@.len() == m as nat,
                        forall|q: int| 0 <= q < m as int ==> (k_decomposed@[q] as int) < n as int,
                        forall|q: int|
                            0 <= q < m as int ==> (k_decomposed@[q] as nat) == digits(
                                kq2 as nat,
                                n as nat,
                                m as nat,
                            )[q],
                        forall|e: int|
                            0 <= e < m as int ==> (#[trigger] ffp@[e])@ == batch_ff(
                                statements@,
                                msgs,
                                proofs@,
                                iu as int,
                            )[e],
                        forall|e: int|
                            0 <= e < m as int ==> (#[trigger] ffp@[e])@.len() == n as nat,
                        prod == f_product_prefix(
                            batch_ff(statements@, msgs, proofs@, iu as int),
                            kq2 as nat,
                            n as nat,
                            m as nat,
                            jp as nat,
                        ),
                    decreases m_us - jp,
                {
                    let frow = &ffp[jp];
                    let didx = k_decomposed[jp] as usize;
                    prod = scalar_mul(&prod, &frow[didx]);
                    jp = jp + 1;
                }
                psum = scalar_add(&psum, &prod);
                kq2 = kq2 + 1;
            }
            let term = scalar_mul(&w4s[iu], &psum);
            uacc = scalar_add(&uacc, &term);
            iu = iu + 1;
        }
        scalars.push(uacc);
        proof {
            assert(scalars@ =~= batch_scalars(statements@, msgs, proofs@, gw1, gw2, gw4));
        }

        // The matching point list.
        let mut points: Vec<RistrettoPoint> = Vec::new();
        points.push(*params.get_G());
        let gens = params.get_CommitmentG();
        let glen = gens.len();
        let mut pg: usize = 0;
        while pg < glen
            invariant
                glen == gens@.len(),
                pg <= glen,
                gens == params.commitment_g,
                points@ =~= seq![params.g] + gens@.take(pg as int),
            decreases glen - pg,
        {
            points.push(gens[pg]);
            pg = pg + 1;
        }
        points.push(*params.get_CommitmentH());
        let ghost points_head = seq![params.g] + params.commitment_g@ + seq![params.commitment_h];
        proof {
            assert(points@ =~= points_head);
        }
        let mut ip: usize = 0;
        while ip < b
            invariant
                b == statements@.len(),
                b == proofs@.len(),
                ip <= b,
                params == statements@[0].params,
                points@ == points_head + batch_block_points(statements@, proofs@, ip as nat),
            decreases b - ip,
        {
            let ghost before = points@;
            let pr = &proofs[ip];
            points.push(pr.a);
            points.push(pr.b);
            points.push(pr.c);
            points.push(pr.d);
            points.push(*statements[ip].get_J());
            let ghost five = seq![
                proofs@[ip as int].a,
                proofs@[ip as int].b,
                proofs@[ip as int].c,
                proofs@[ip as int].d,
                statements@[ip as int].j,
            ];
            proof {
                assert(points@ =~= before + five);
            }
            let xlen = pr.x.len();
            let mut px: usize = 0;
            while px < xlen
                invariant
                    xlen == pr.x@.len(),
                    px <= xlen,
                    ip < b,
                    b == proofs@.len(),
                    pr == proofs@[ip as int],
                    points@ == before + five + pr.x@.take(px as int),
                decreases xlen - px,
            {
                points.push(pr.x[px]);
                proof {
                    assert(points@ =~= before + five + pr.x@.take(px + 1));
                }
                px = px + 1;
            }
            proof {
                assert(pr.x@.take(xlen as int) =~= pr.x@);
            }
            let ylen = pr.y.len();
            let mut py: usize = 0;
            while py < ylen
                invariant
                    ylen == pr.y@.len(),
                    py <= ylen,
                    ip < b,
                    b == proofs@.len(),
                    pr == proofs@[ip as int],
                    points@ == before + five + pr.x@ + pr.y@.take(py as int),
                decreases ylen - py,
            {
                points.push(pr.y[py]);
                proof {
                    assert(points@ =~= before + five + pr.x@ + pr.y@.take(py + 1));
                }
                py = py + 1;
            }
            proof {
                assert(pr.y@.take(ylen as int) =~= pr.y@);
                assert(points@ =~= points_head + batch_block_points(
                    statements@,
                    proofs@,
                    (ip + 1) as nat,
                ));
            }
            ip = ip + 1;
        }
        let keys = stmt0.get_input_set().get_keys();
        let klen = keys.len();
        let mut pk: usize = 0;
        let ghost with_block_pts = points_head + batch_block_points(statements@, proofs@, b as nat);
        while pk < klen
            invariant
                klen == keys@.len(),
                pk <= klen,
                keys == statements@[0].input_set.keys,
                points@ =~= with_block_pts + keys@.take(pk as int),
            decreases klen - pk,
        {
            points.push(keys[pk]);
            pk = pk + 1;
        }
        points.push(*params.get_U());
        proof {
            assert(points@ =~= batch_points(statements@, proofs@));
            lemma_batch_block_points_len(statements@, proofs@, m as nat, b as nat);
            lemma_batch_block_scalars_len(
                statements@,
                msgs,
                proofs@,
                gw1,
                gw2,
                gw4,
                m as nat,
                b as nat,
            );
            assert(scalars@.len() == points@.len());
        }

        let sum = crate::group::vartime_multiscalar_mul(&scalars, &points);
        let id_pt = crate::group::point_identity();
        let r = point_eq(&sum, &id_pt);
        proof {
            assert(r == batch_verifies_with(statements@, msgs, proofs@, gw1, gw2, gw4));
        }
        r
    }
}

/// The left-to-right sum of a sequence of scalars, starting from zero.
pub open spec fn seq_sum(s: Seq<Scalar>) -> Scalar
    decreases s.len(),
{
    if s.len() == 0 {
        s_from_u32(0)
    } else {
        s_add(seq_sum(s.drop_last()), s.last())
    }
}

/// A full response row: the omitted column reconstructed as the challenge
/// minus the stored row's sum, followed by the stored row.
pub open spec fn full_f_row(row: Seq<Scalar>, xi1: Scalar) -> Seq<Scalar> {
    seq![s_sub(xi1, seq_sum(row))] + row
}

/// Every response row completed against the challenge.
pub open spec fn full_f(rows: Seq<Seq<Scalar>>, xi1: Scalar) -> Seq<Seq<Scalar>> {
    rows.map_values(|row: Seq<Scalar>| full_f_row(row, xi1))
}

/// The views of the rows of a stored response matrix.
pub open spec fn f_view(f: Seq<Vec<Scalar>>) -> Seq<Seq<Scalar>> {
    f.map_values(|r: Vec<Scalar>| r@)
}

/// The verifier's scalar on one commitment generator:
/// `w1 f + w2 f (xi - f)`.
pub open spec fn gen_scalar(fv: Scalar, xi1: Scalar, w1: Scalar, w2: Scalar) -> Scalar {
    s_add(s_mul(w1, fv), s_mul(s_mul(w2, fv), s_sub(xi1, fv)))
}

/// The product of the first `j` response entries selected by the base-`n`
/// digits of `k`, starting from one.
pub open spec fn f_product_prefix(
    ff: Seq<Seq<Scalar>>,
    k: nat,
    n: nat,
    m: nat,
    j: nat,
) -> Scalar
    decreases j,
{
    if j == 0 {
        s_from_u32(1)
    } else {
        s_mul(
            f_product_prefix(ff, k, n, m, (j - 1) as nat),
            ff[j - 1][digits(k, n, m)[j - 1] as int],
        )
    }
}

/// The verifier's scalar on input-set entry `k`.
pub open spec fn f_product(ff: Seq<Seq<Scalar>>, k: nat, n: nat, m: nat) -> Scalar {
    f_product_prefix(ff, k, n, m, m)
}

/// The left-to-right sum of the first `k` input-set scalars.
pub open spec fn f_product_sum(ff: Seq<Seq<Scalar>>, n: nat, m: nat, k: nat) -> Scalar
    decreases k,
{
    if k == 0 {
        s_from_u32(0)
    } else {
        s_add(f_product_sum(ff, n, m, (k - 1) as nat), f_product(ff, (k - 1) as nat, n, m))
    }
}

/// The point list of the single verification equation, in its exact order.
pub open spec fn verification_points(stmt: Statement, p: Proof) -> Seq<RistrettoPoint> {
    seq![stmt.params.g] + stmt.params.commitment_g@ + seq![
        stmt.params.commitment_h,
        p.a,
        p.b,
        p.c,
        p.d,
        stmt.j,
    ] + p.x@ + p.y@ + stmt.input_set.keys@ + seq![stmt.params.u]
}

/// The scalar list of the single verification equation, parallel to
/// [`verification_points`], for challenge `xi` and weights `w1`, `w2`, `w4`
/// (the third weight is fixed to one and folded into the `z` term).
pub open spec fn verification_scalars(
    stmt: Statement,
    p: Proof,
    xi: Scalar,
    w1: Scalar,
    w2: Scalar,
    w4: Scalar,
) -> Seq<Scalar> {
    let n = stmt.params.n as nat;
    let m = stmt.params.m as nat;
    let count = stmt.params.number as nat;
    let xi1 = xi_pow(xi, 1);
    let ff = full_f(f_view(p.f@), xi1);
    seq![s_neg(p.z)] + Seq::new(m * n, |t: int| gen_scalar(ff[t / (n as int)][t % (n as int)], xi1, w1, w2))
        + seq![
        s_add(s_mul(w1, p.z_a), s_mul(w2, p.z_c)),
        s_neg(w1),
        s_mul(s_neg(w1), xi1),
        s_mul(s_neg(w2), xi1),
        s_neg(w2),
        s_mul(s_neg(w4), p.z),
    ] + Seq::new(m, |q: int| s_neg(xi_pow(xi, q as nat))) + Seq::new(
        m,
        |q: int| s_mul(s_neg(w4), xi_pow(xi, q as nat)),
    ) + Seq::new(count, |q: int| f_product(ff, q as nat, n, m)) + seq![
        s_mul(w4, f_product_sum(ff, n, m, count)),
    ]
}

/// A proof passes under the given weights: it is well-shaped, its challenge
/// powers are nonzero, and the single multiscalar equation sums to the group
/// identity.
pub open spec fn verifies_with(
    stmt: Statement,
    message: Option<Seq<u8>>,
    p: Proof,
    w1: Scalar,
    w2: Scalar,
    w4: Scalar,
) -> bool {
    let xi = statement_challenge(stmt, message, p);
    &&& p.wf(stmt.params.n as nat, stmt.params.m as nat)
    &&& powers_nonzero(xi, stmt.params.m as nat)
    &&& compress_of(
        vartime_msm_of(
            verification_scalars(stmt, p, xi, w1, w2, w4),
            verification_points(stmt, p),
        ),
    ) == identity_bytes()
}

/// The views of a sequence of optional message arguments.
pub open spec fn messages_view(ms: Seq<Option<&[u8]>>) -> Seq<Option<Seq<u8>>> {
    ms.map_values(|o: Option<&[u8]>| message_view(o))
}

/// The challenge of batch entry `i`.
pub open spec fn batch_xi(
    stmts: Seq<Statement>,
    msgs: Seq<Option<Seq<u8>>>,
    ps: Seq<Proof>,
    i: int,
) -> Scalar {
    statement_challenge(stmts[i], msgs[i], ps[i])
}

/// The full response matrix of batch entry `i`.
pub open spec fn batch_ff(
    stmts: Seq<Statement>,
    msgs: Seq<Option<Seq<u8>>>,
    ps: Seq<Proof>,
    i: int,
) -> Seq<Seq<Scalar>> {
    full_f(f_view(ps[i].f@), xi_pow(batch_xi(stmts, msgs, ps, i), 1))
}

/// The sum over the first `k` proofs of the negated `z` responses.
pub open spec fn batch_neg_z(ps: Seq<Proof>, k: nat) -> Scalar
    decreases k,
{
    if k == 0 {
        s_from_u32(0)
    } else {
        s_add(batch_neg_z(ps, (k - 1) as nat), s_neg(ps[k - 1].z))
    }
}

/// The sum over the first `k` proofs of the scalar on commitment generator
/// `t`.
pub open spec fn batch_gen_sum(
    stmts: Seq<Statement>,
    msgs: Seq<Option<Seq<u8>>>,
    ps: Seq<Proof>,
    w1s: Seq<Scalar>,
    w2s: Seq<Scalar>,
    t: int,
    k: nat,
) -> Scalar
    decreases k,
{
    if k == 0 {
        s_from_u32(0)
    } else {
        let n = stmts[0].params.n as int;
        s_add(
            batch_gen_sum(stmts, msgs, ps, w1s, w2s, t, (k - 1) as nat),
            gen_scalar(
                batch_ff(stmts, msgs, ps, k - 1)[t / n][t % n],
                xi_pow(batch_xi(stmts, msgs, ps, k - 1), 1),
                w1s[k - 1],
                w2s[k - 1],
            ),
        )
    }
}

/// The sum over the first `k` proofs of the scalar on the blinding
/// generator.
pub open spec fn batch_h_sum(ps: Seq<Proof>, w1s: Seq<Scalar>, w2s: Seq<Scalar>, k: nat) -> Scalar
    decreases k,
{
    if k == 0 {
        s_from_u32(0)
    } else {
        s_add(
            batch_h_sum(ps, w1s, w2s, (k - 1) as nat),
            s_add(s_mul(w1s[k - 1], ps[k - 1].z_a), s_mul(w2s[k - 1], ps[k - 1].z_c)),
        )
    }
}

/// The sum over the first `k` proofs of the scalar on input-set entry `q`.
pub open spec fn batch_m_sum(
    stmts: Seq<Statement>,
    msgs: Seq<Option<Seq<u8>>>,
    ps: Seq<Proof>,
    q: nat,
    k: nat,
) -> Scalar
    decreases k,
{
    if k == 0 {
        s_from_u32(0)
    } else {
        s_add(
            batch_m_sum(stmts, msgs, ps, q, (k - 1) as nat),
            f_product(
                batch_ff(stmts, msgs, ps, k - 1),
                q,
                stmts[0].params.n as nat,
                stmts[0].params.m as nat,
            ),
        )
    }
}

/// The sum over the first `k` proofs of the scalar on the linking-tag
/// generator.
pub open spec fn batch_u_sum(
    stmts: Seq<Statement>,
    msgs: Seq<Option<Seq<u8>>>,
    ps: Seq<Proof>,
    w4s: Seq<Scalar>,
    k: nat,
) -> Scalar
    decreases k,
{
    if k == 0 {
        s_from_u32(0)
    } else {
        s_add(
            batch_u_sum(stmts, msgs, ps, w4s, (k - 1) as nat),
            s_mul(
                w4s[k - 1],
                f_product_sum(
                    batch_ff(stmts, msgs, ps, k - 1),
                    stmts[0].params.n as nat,
                    stmts[0].params.m as nat,
                    stmts[0].params.number as nat,
                ),
            ),
        )
    }
}

/// The per-proof points of the batch equation: commitments, linking tag,
/// and the masked vectors.
pub open spec fn proof_block_points(stmt: Statement, p: Proof) -> Seq<RistrettoPoint> {
    seq![p.a, p.b, p.c, p.d, stmt.j] + p.x@ + p.y@
}

/// The per-proof point blocks of the first `k` batch entries.
pub open spec fn batch_block_points(stmts: Seq<Statement>, ps: Seq<Proof>, k: nat) -> Seq<
    RistrettoPoint,
>
    decreases k,
{
    if k == 0 {
        Seq::empty()
    } else {
        batch_block_points(stmts, ps, (k - 1) as nat) + proof_block_points(
            stmts[k - 1],
            ps[k - 1],
        )
    }
}

/// The per-proof scalars of the batch equation, parallel to
/// [`proof_block_points`].
pub open spec fn proof_block_scalars(
    stmt: Statement,
    msg: Option<Seq<u8>>,
    p: Proof,
    w1: Scalar,
    w2: Scalar,
    w4: Scalar,
) -> Seq<Scalar> {
    let xi = statement_challenge(stmt, msg, p);
    let xi1 = xi_pow(xi, 1);
    let m = stmt.params.m as nat;
    seq![
        s_neg(w1),
        s_mul(s_neg(w1), xi1),
        s_mul(s_neg(w2), xi1),
        s_neg(w2),
        s_mul(s_neg(w4), p.z),
    ] + Seq::new(m, |q: int| s_neg(xi_pow(xi, q as nat))) + Seq::new(
        m,
        |q: int| s_mul(s_neg(w4), xi_pow(xi, q as nat)),
    )
}

/// The per-proof scalar blocks of the first `k` batch entries.
pub open spec fn batch_block_scalars(
    stmts: Seq<Statement>,
    msgs: Seq<Option<Seq<u8>>>,
    ps: Seq<Proof>,
    w1s: Seq<Scalar>,
    w2s: Seq<Scalar>,
    w4s: Seq<Scalar>,
    k: nat,
) -> Seq<Scalar>
    decreases k,
{
    if k == 0 {
        Seq::empty()
    } else {
        batch_block_scalars(stmts, msgs, ps, w1s, w2s, w4s, (k - 1) as nat)
            + proof_block_scalars(
            stmts[k - 1],
            msgs[k - 1],
            ps[k - 1],
            w1s[k - 1],
            w2s[k - 1],
            w4s[k - 1],
        )
    }
}

/// The point list of the batch verification equation: the shared generators
/// and input set once, and one block per proof.
pub open spec fn batch_points(stmts: Seq<Statement>, ps: Seq<Proof>) -> Seq<RistrettoPoint> {
    seq![stmts[0].params.g] + stmts[0].params.commitment_g@ + seq![stmts[0].params.commitment_h]
        + batch_block_points(stmts, ps, ps.len()) + stmts[0].input_set.keys@ + seq![
        stmts[0].params.u,
    ]
}

/// The scalar list of the batch verification equation, parallel to
/// [`batch_points`]: scalars on shared points are summed across proofs.
pub open spec fn batch_scalars(
    stmts: Seq<Statement>,
    msgs: Seq<Option<Seq<u8>>>,
    ps: Seq<Proof>,
    w1s: Seq<Scalar>,
    w2s: Seq<Scalar>,
    w4s: Seq<Scalar>,
) -> Seq<Scalar> {
    let n = stmts[0].params.n as nat;
    let m = stmts[0].params.m as nat;
    let count = stmts[0].params.number as nat;
    let b = ps.len();
    seq![batch_neg_z(ps, b)] + Seq::new(
        m * n,
        |t: int| batch_gen_sum(stmts, msgs, ps, w1s, w2s, t, b),
    ) + seq![batch_h_sum(ps, w1s, w2s, b)] + batch_block_scalars(stmts, msgs, ps, w1s, w2s, w4s, b)
        + Seq::new(count, |q: int| batch_m_sum(stmts, msgs, ps, q as nat, b)) + seq![
        batch_u_sum(stmts, msgs, ps, w4s, b),
    ]
}

/// The whole batch folds into one multiscalar equation that sums to the
/// identity.
pub open spec fn batch_verifies_with(
    stmts: Seq<Statement>,
    msgs: Seq<Option<Seq<u8>>>,
    ps: Seq<Proof>,
    w1s: Seq<Scalar>,
    w2s: Seq<Scalar>,
    w4s: Seq<Scalar>,
) -> bool {
    compress_of(
        vartime_msm_of(batch_scalars(stmts, msgs, ps, w1s, w2s, w4s), batch_points(stmts, ps)),
    ) == identity_bytes()
}

/// A batch the verifier will weigh at all: equal lengths, at least one
/// entry, shared parameters and input set by hash and by dimensions, and
/// every proof well-shaped with nonzero challenge powers.
pub open spec fn batch_coherent(
    stmts: Seq<Statement>,
    msgs: Seq<Option<Seq<u8>>>,
    ps: Seq<Proof>,
) -> bool {
    &&& stmts.len() == ps.len()
    &&& stmts.len() == msgs.len()
    &&& stmts.len() >= 1
    &&& forall|i: int|
        0 <= i < stmts.len() ==> (#[trigger] stmts[i]).params.hash@ == stmts[0].params.hash@
    &&& forall|i: int|
        0 <= i < stmts.len() ==> (#[trigger] stmts[i]).input_set.hash@
            == stmts[0].input_set.hash@
    &&& forall|i: int|
        0 <= i < stmts.len() ==> (#[trigger] stmts[i]).params.n == stmts[0].params.n
    &&& forall|i: int|
        0 <= i < stmts.len() ==> (#[trigger] stmts[i]).params.m == stmts[0].params.m
    &&& forall|i: int|
        0 <= i < stmts.len() ==> (#[trigger] stmts[i]).params.number == stmts[0].params.number
    &&& forall|i: int|
        0 <= i < ps.len() ==> (#[trigger] ps[i]).wf(
            stmts[0].params.n as nat,
            stmts[0].params.m as nat,
        )
    &&& forall|i: int|
        0 <= i < ps.len() ==> powers_nonzero(
            #[trigger] batch_xi(stmts, msgs, ps, i),
            stmts[0].params.m as nat,
        )
}

/// The per-proof point blocks have `5 + 2 m` entries each.
pub proof fn lemma_batch_block_points_len(stmts: Seq<Statement>, ps: Seq<Proof>, m: nat, k: nat)
    requires
        k <= ps.len(),
        forall|i: int| 0 <= i < ps.len() ==> (#[trigger] ps[i]).x@.len() == m,
        forall|i: int| 0 <= i < ps.len() ==> (#[trigger] ps[i]).y@.len() == m,
    ensures
        batch_block_points(stmts, ps, k).len() == k * (5 + 2 * m),
    decreases k,
{
    if k > 0 {
        lemma_batch_block_points_len(stmts, ps, m, (k - 1) as nat);
        assert(ps[k - 1].x@.len() == m);
        assert(proof_block_points(stmts[k - 1], ps[k - 1]).len() == 5 + 2 * m);
        assert(batch_block_points(stmts, ps, k) == batch_block_points(stmts, ps, (k - 1) as nat)
            + proof_block_points(stmts[k - 1], ps[k - 1]));
        assert(((k - 1) as nat) * (5 + 2 * m) + (5 + 2 * m) == k * (5 + 2 * m))
            by (nonlinear_arith)
            requires k >= 1;
    } else {
        assert(k * (5 + 2 * m) == 0) by (nonlinear_arith)
            requires k == 0;
    }
}

/// The per-proof scalar blocks have `5 + 2 m` entries each.
pub proof fn lemma_batch_block_scalars_len(
    stmts: Seq<Statement>,
    msgs: Seq<Option<Seq<u8>>>,
    ps: Seq<Proof>,
    w1s: Seq<Scalar>,
    w2s: Seq<Scalar>,
    w4s: Seq<Scalar>,
    m: nat,
    k: nat,
)
    requires
        k <= ps.len(),
        k <= stmts.len(),
        forall|i: int| 0 <= i < stmts.len() ==> (#[trigger] stmts[i]).params.m as nat == m,
    ensures
        batch_block_scalars(stmts, msgs, ps, w1s, w2s, w4s, k).len() == k * (5 + 2 * m),
    decreases k,
{
    if k > 0 {
        lemma_batch_block_scalars_len(stmts, msgs, ps, w1s, w2s, w4s, m, (k - 1) as nat);
        assert(stmts[k - 1].params.m as nat == m);
        assert(proof_block_scalars(
            stmts[k - 1],
            msgs[k - 1],
            ps[k - 1],
            w1s[k - 1],
            w2s[k - 1],
            w4s[k - 1],
        ).len() == 5 + 2 * m);
        assert(((k - 1) as nat) * (5 + 2 * m) + (5 + 2 * m) == k * (5 + 2 * m))
            by (nonlinear_arith)
            requires k >= 1;
    } else {
        assert(k * (5 + 2 * m) == 0) by (nonlinear_arith)
            requires k == 0;
    }
}

/// Point histories hold three entries per point: an operation tag, the
/// label, and the compression.
pub proof fn lemma_points_history_len(label: Seq<char>, pts: Seq<RistrettoPoint>, k: nat)
    requires
        k <= pts.len(),
    ensures
        points_history(label, pts, k).len() == 3 * k,
    decreases k,
{
    if k > 0 {
        lemma_points_history_len(label, pts, (k - 1) as nat);
    }
}

/// Within a point history, entry `3 j + 2` is the `j`-th point's
/// compression.
pub proof fn lemma_points_history_index(label: Seq<char>, pts: Seq<RistrettoPoint>, k: nat, j: int)
    requires
        k <= pts.len(),
        0 <= j < k,
    ensures
        points_history(label, pts, k)[3 * j + 1] == label_bytes(label),
        points_history(label, pts, k)[3 * j + 2] == compress_of(pts[j]),
    decreases k,
{
    lemma_points_history_len(label, pts, (k - 1) as nat);
    if j < k - 1 {
        lemma_points_history_index(label, pts, (k - 1) as nat, j);
    }
}

/// The Fiat-Shamir history binds every absorbed component: two histories
/// over equally long point vectors are equal only if the parameter hash,
/// the input-set hash, the compressed linking tag, the optional message,
/// and the compression of every commitment point agree.
pub proof fn lemma_transcript_binding(
    ph1: Seq<u8>,
    ih1: Seq<u8>,
    jb1: Seq<u8>,
    msg1: Option<Seq<u8>>,
    a1: RistrettoPoint,
    b1: RistrettoPoint,
    c1: RistrettoPoint,
    d1: RistrettoPoint,
    xs1: Seq<RistrettoPoint>,
    ys1: Seq<RistrettoPoint>,
    ph2: Seq<u8>,
    ih2: Seq<u8>,
    jb2: Seq<u8>,
    msg2: Option<Seq<u8>>,
    a2: RistrettoPoint,
    b2: RistrettoPoint,
    c2: RistrettoPoint,
    d2: RistrettoPoint,
    xs2: Seq<RistrettoPoint>,
    ys2: Seq<RistrettoPoint>,
)
    requires
        xs1.len() == ys1.len(),
        xs2.len() == ys2.len(),
        full_history(ph1, ih1, jb1, msg1, a1, b1, c1, d1, xs1, ys1) == full_history(
            ph2,
            ih2,
            jb2,
            msg2,
            a2,
            b2,
            c2,
            d2,
            xs2,
            ys2,
        ),
    ensures
        ph1 == ph2,
        ih1 == ih2,
        jb1 == jb2,
        msg1 == msg2,
        compress_of(a1) == compress_of(a2),
        compress_of(b1) == compress_of(b2),
        compress_of(c1) == compress_of(c2),
        compress_of(d1) == compress_of(d2),
        xs1.len() == xs2.len(),
        forall|j: int| 0 <= j < xs1.len() ==> compress_of(#[trigger] xs1[j]) == compress_of(
            xs2[j],
        ),
        forall|j: int| 0 <= j < ys1.len() ==> compress_of(#[trigger] ys1[j]) == compress_of(
            ys2[j],
        ),
{
    let h1 = full_history(ph1, ih1, jb1, msg1, a1, b1, c1, d1, xs1, ys1);
    let h2 = full_history(ph2, ih2, jb2, msg2, a2, b2, c2, d2, xs2, ys2);
    lemma_points_history_len("X"@, xs1, xs1.len());
    lemma_points_history_len("Y"@, ys1, ys1.len());
    lemma_points_history_len("X"@, xs2, xs2.len());
    lemma_points_history_len("Y"@, ys2, ys2.len());
    let base1: int = if msg1 is Some { 18 } else { 15 };
    let base2: int = if msg2 is Some { 18 } else { 15 };
    assert(h1.len() == base1 + 12 + 6 * xs1.len());
    assert(h2.len() == base2 + 12 + 6 * xs2.len());
    // A message's presence shifts the history by three entries; the point
    // blocks shift it by multiples of six, so presence must agree.
    assert(msg1 is Some <==> msg2 is Some);
    assert(base1 == base2);
    assert(xs1.len() == xs2.len());
    if msg1 is Some {
        assert(h1[8] == msg1->Some_0);
        assert(msg1 == msg2);
    } else {
        assert(msg1 == msg2);
    }
    assert(ph1 == ph2) by {
        assert(h1[base1 - 7] == ph1);
        assert(h2[base2 - 7] == ph2);
    }
    assert(ih1 == ih2) by {
        assert(h1[base1 - 4] == ih1);
        assert(h2[base2 - 4] == ih2);
    }
    assert(jb1 == jb2) by {
        assert(h1[base1 - 1] == jb1);
        assert(h2[base2 - 1] == jb2);
    }
    assert(compress_of(a1) == compress_of(a2)) by {
        assert(h1[base1 + 2] == compress_of(a1));
        assert(h2[base2 + 2] == compress_of(a2));
    }
    assert(compress_of(b1) == compress_of(b2)) by {
        assert(h1[base1 + 5] == compress_of(b1));
        assert(h2[base2 + 5] == compress_of(b2));
    }
    assert(compress_of(c1) == compress_of(c2)) by {
        assert(h1[base1 + 8] == compress_of(c1));
        assert(h2[base2 + 8] == compress_of(c2));
    }
    assert(compress_of(d1) == compress_of(d2)) by {
        assert(h1[base1 + 11] == compress_of(d1));
        assert(h2[base2 + 11] == compress_of(d2));
    }
    assert forall|j: int| 0 <= j < xs1.len() implies compress_of(#[trigger] xs1[j]) == compress_of(
        xs2[j],
    ) by {
        lemma_points_history_index("X"@, xs1, xs1.len(), j);
        lemma_points_history_index("X"@, xs2, xs2.len(), j);
        assert(h1[base1 + 12 + 3 * j + 2] == compress_of(xs1[j]));
        assert(h2[base2 + 12 + 3 * j + 2] == compress_of(xs2[j]));
    }
    assert forall|j: int| 0 <= j < ys1.len() implies compress_of(#[trigger] ys1[j]) == compress_of(
        ys2[j],
    ) by {
        lemma_points_history_index("Y"@, ys1, ys1.len(), j);
        lemma_points_history_index("Y"@, ys2, ys2.len(), j);
        assert(h1[base1 + 12 + 3 * xs1.len() + 3 * j + 2] == compress_of(ys1[j]));
        assert(h2[base2 + 12 + 3 * xs2.len() + 3 * j + 2] == compress_of(ys2[j]));
    }
}

/// A row with its first entry replaced by the negated sum of the rest, so
/// that the whole row sums to zero.
pub open spec fn fix_row(row: Seq<Scalar>) -> Seq<Scalar> {
    row.update(0, s_neg(seq_sum(row.subrange(1, row.len() as int))))
}

/// Every row fixed to sum to zero.
pub open spec fn fixed_mat(rows: Seq<Seq<Scalar>>) -> Seq<Seq<Scalar>> {
    rows.map_values(|row: Seq<Scalar>| fix_row(row))
}

/// The `j`-th base-`n` digit of `l`, as a 32-bit integer.
pub open spec fn l_digit(l: u32, n: nat, m: nat, j: int) -> u32 {
    digits(l as nat, n, m)[j] as u32
}

/// The index matrix: row `j` is the Kronecker delta row selecting the
/// `j`-th digit of `l`.
pub open spec fn sigma_mat(l: u32, n: nat, m: nat) -> Seq<Seq<Scalar>> {
    Seq::new(m, |j: int| Seq::new(n, |i: int| spec_delta(l_digit(l, n, m, j), i as u32)))
}

/// The entrywise matrix `a (1 - 2 sigma)` committed by `C`.
pub open spec fn c_mat(fx: Seq<Seq<Scalar>>, sg: Seq<Seq<Scalar>>, n: nat, m: nat) -> Seq<
    Seq<Scalar>,
> {
    Seq::new(
        m,
        |j: int|
            Seq::new(
                n,
                |i: int|
                    s_mul(fx[j][i], s_sub(s_from_u32(1), s_mul(s_from_u32(2), sg[j][i]))),
            ),
    )
}

/// The entrywise matrix `-a a` committed by `D`.
pub open spec fn d_mat(fx: Seq<Seq<Scalar>>, n: nat, m: nat) -> Seq<Seq<Scalar>> {
    Seq::new(m, |j: int| Seq::new(n, |i: int| s_mul(s_neg(fx[j][i]), fx[j][i])))
}

/// A Pedersen matrix commitment under the statement's generators, exactly
/// as [`crate::params::Parameters::commit_matrix`] computes it.
pub open spec fn committed(stmt: Statement, mat: Seq<Seq<Scalar>>, blind: Scalar) -> RistrettoPoint {
    crate::group::msm_of(
        crate::params::flatten_rows(mat, stmt.params.n as nat).push(blind),
        stmt.params.commitment_g@.push(stmt.params.commitment_h),
    )
}

/// One convolution step: multiplying the polynomial with coefficients
/// `prev` by `sv x + av`, using that the top coefficient of `prev` is still
/// zero so rotating it to the front is sound.
pub open spec fn conv_next(prev: Seq<Scalar>, av: Scalar, sv: Scalar, m: nat) -> Seq<Scalar> {
    Seq::new(
        m + 1,
        |ii: int|
            if ii == 0 {
                s_add(s_mul(av, prev[0]), s_mul(sv, prev[m as int]))
            } else {
                s_add(s_mul(av, prev[ii]), s_mul(sv, prev[ii - 1]))
            },
    )
}

/// The coefficients of the product of the first `j` digit-selected linear
/// polynomials for index `k`, for `j` from one up to `m`.
pub open spec fn poly_at(
    fx: Seq<Seq<Scalar>>,
    sg: Seq<Seq<Scalar>>,
    k: nat,
    n: nat,
    m: nat,
    j: nat,
) -> Seq<Scalar>
    decreases j,
{
    if j <= 1 {
        Seq::new(
            m + 1,
            |ii: int|
                if ii == 0 {
                    fx[0][digits(k, n, m)[0] as int]
                } else if ii == 1 {
                    sg[0][digits(k, n, m)[0] as int]
                } else {
                    s_from_u32(0)
                },
        )
    } else {
        conv_next(
            poly_at(fx, sg, k, n, m, (j - 1) as nat),
            fx[j - 1][digits(k, n, m)[j - 1] as int],
            sg[j - 1][digits(k, n, m)[j - 1] as int],
            m,
        )
    }
}

/// The full degree-`m` coefficient vector for index `k`.
pub open spec fn poly_full(fx: Seq<Seq<Scalar>>, sg: Seq<Seq<Scalar>>, k: nat, n: nat, m: nat) -> Seq<
    Scalar,
> {
    poly_at(fx, sg, k, n, m, m)
}

/// The prover's masked input-set combination
/// `X[j] = sum over k of p_k[j] M[k] + rho[j] G`.
pub open spec fn built_x(
    stmt: Statement,
    fx: Seq<Seq<Scalar>>,
    sg: Seq<Seq<Scalar>>,
    rho: Seq<Scalar>,
    j: int,
) -> RistrettoPoint {
    let n = stmt.params.n as nat;
    let m = stmt.params.m as nat;
    crate::group::msm_of(
        Seq::new(stmt.params.number as nat, |k: int| poly_full(fx, sg, k as nat, n, m)[j]).push(
            rho[j],
        ),
        stmt.input_set.keys@.push(stmt.params.g),
    )
}

/// The mask sum `sum over j below k of rho[j] xi^j`.
pub open spec fn mask_wsum(rho: Seq<Scalar>, xi: Scalar, k: nat) -> Scalar
    decreases k,
{
    if k == 0 {
        s_from_u32(0)
    } else {
        s_add(mask_wsum(rho, xi, (k - 1) as nat), s_mul(rho[k - 1], xi_pow(xi, (k - 1) as nat)))
    }
}

/// The proof is exactly the spec construction from the witness, the drawn
/// mask matrix `aM`, the blindings, and the mask vector `rho`: commitments
/// are the stated matrix commitments, `X`/`Y` the stated multiscalar
/// products, each stored response entry is `sigma xi + a`, and the three
/// response scalars are `r_A + xi r_B`, `xi r_C + r_D`, and
/// `r xi^m - sum of rho[j] xi^j`.
pub open spec fn proof_built_from(
    stmt: Statement,
    msg: Option<Seq<u8>>,
    wr: Scalar,
    l: u32,
    aM: Seq<Seq<Scalar>>,
    r_a: Scalar,
    r_b: Scalar,
    r_c: Scalar,
    r_d: Scalar,
    rho: Seq<Scalar>,
    p: Proof,
) -> bool {
    let n = stmt.params.n as nat;
    let m = stmt.params.m as nat;
    let fx = fixed_mat(aM);
    let sg = sigma_mat(l, n, m);
    let xi = statement_challenge(stmt, msg, p);
    let xi1 = xi_pow(xi, 1);
    &&& aM.len() == m
    &&& forall|j: int| 0 <= j < aM.len() ==> (#[trigger] aM[j]).len() == n
    &&& rho.len() == m
    &&& p.a == committed(stmt, fx, r_a)
    &&& p.b == committed(stmt, sg, r_b)
    &&& p.c == committed(stmt, c_mat(fx, sg, n, m), r_c)
    &&& p.d == committed(stmt, d_mat(fx, n, m), r_d)
    &&& p.x@ == Seq::new(m, |j: int| built_x(stmt, fx, sg, rho, j))
    &&& p.y@ == Seq::new(m, |j: int| smul_of(rho[j], stmt.j))
    &&& p.f@.len() == m
    &&& forall|j: int, i: int|
        0 <= j < m && 0 <= i < n - 1 ==> #[trigger] p.f@[j]@[i] == s_add(
            s_mul(sg[j][i + 1], xi1),
            fx[j][i + 1],
        )
    &&& p.z_a == s_add(r_a, s_mul(xi1, r_b))
    &&& p.z_c == s_add(s_mul(xi1, r_c), r_d)
    &&& p.z == s_sub(s_mul(wr, xi_pow(xi, m)), mask_wsum(rho, xi, m))
}

/// The challenge that the spec construction determines, before the proof
/// exists: the transcript challenge over the built commitments.
pub open spec fn built_challenge(
    stmt: Statement,
    msg: Option<Seq<u8>>,
    l: u32,
    aM: Seq<Seq<Scalar>>,
    r_a: Scalar,
    r_b: Scalar,
    r_c: Scalar,
    r_d: Scalar,
    rho: Seq<Scalar>,
) -> Scalar {
    let n = stmt.params.n as nat;
    let m = stmt.params.m as nat;
    let fx = fixed_mat(aM);
    let sg = sigma_mat(l, n, m);
    challenge_scalar(
        full_history(
            stmt.params.hash@,
            stmt.input_set.hash@,
            compress_of(stmt.j),
            msg,
            committed(stmt, fx, r_a),
            committed(stmt, sg, r_b),
            committed(stmt, c_mat(fx, sg, n, m), r_c),
            committed(stmt, d_mat(fx, n, m), r_d),
            Seq::new(m, |j: int| built_x(stmt, fx, sg, rho, j)),
            Seq::new(m, |j: int| smul_of(rho[j], stmt.j)),
        ),
    )
}

/// The conditions under which proving rejects the witness-statement pair
/// with `InvalidParameter`: a parameter-hash mismatch, an index outside the
/// input set, a verification key that is not the indexed entry, or a linking
/// tag whose product with the witness scalar is not `U`.
pub open spec fn prove_rejects(w: crate::witness::Witness, stmt: Statement) -> bool {
    ||| w.params.hash@ != stmt.params.hash@
    ||| w.l as int >= stmt.input_set.keys@.len()
    ||| compress_of(smul_of(w.r, stmt.params.g)) != compress_of(stmt.input_set.keys@[w.l as int])
    ||| compress_of(smul_of(w.r, stmt.j)) != compress_of(stmt.params.u)
}

/// Kronecker delta with scalar output.
pub(crate) fn delta(x: u32, y: u32) -> (r: Scalar)
    ensures
        r == spec_delta(x, y),
{
    if x == y {
        scalar_from_u32(1)
    } else {
        scalar_from_u32(0)
    }
}

/// Kronecker delta: one when the arguments agree, zero otherwise.
pub open spec fn spec_delta(x: u32, y: u32) -> Scalar {
    if x == y {
        s_from_u32(1)
    } else {
        s_from_u32(0)
    }
}

/// Draws the challenge from the transcript and returns its powers with
/// exponents `[0, m]`; fails exactly when some such power is zero.
pub(crate) fn xi_powers(t: &mut ProofTranscript, m: u32) -> (r: Result<Vec<Scalar>, ProofError>)
    requires
        m < u32::MAX,
    ensures
        r is Ok <==> powers_nonzero(challenge_scalar(old(t).history@), m as nat),
        r is Ok ==> r->Ok_0@.len() == m + 1,
        r is Ok ==> forall|i: int|
            0 <= i <= m ==> r->Ok_0@[i] == xi_pow(challenge_scalar(old(t).history@), i as nat),
        r is Err ==> r->Err_0 == ProofError::InvalidChallenge,
{
    proof {
        reveal_strlit("xi");
    }
    let xi_bytes = t.challenge("xi", 64);
    let xi = scalar_from_wide_bytes(&xi_bytes);
    let ghost xi_spec = challenge_scalar(old(t).history@);
    assert(xi == xi_spec);
    let zero = scalar_from_u32(0);
    let mut v: Vec<Scalar> = Vec::new();
    let mut power = scalar_from_u32(1);
    let mut i: u32 = 0;
    while i <= m
        invariant
            m < u32::MAX,
            i <= m + 1,
            v@.len() == i as nat,
            zero == s_from_u32(0),
            xi == xi_spec,
            xi_spec == challenge_scalar(old(t).history@),
            power == xi_pow(xi_spec, i as nat),
            forall|ii: int| 0 <= ii < i ==> v@[ii] == xi_pow(xi_spec, ii as nat),
            i >= 1 ==> powers_nonzero(xi_spec, (i - 1) as nat),
        decreases m + 1 - i,
    {
        if scalar_eq(&power, &zero) {
            proof {
                if powers_nonzero(xi_spec, m as nat) {
                    lemma_powers_nonzero_at(xi_spec, m as nat, i as nat);
                }
            }
            return Err(ProofError::InvalidChallenge);
        }
        proof {
            assert(powers_nonzero(xi_spec, i as nat));
        }
        v.push(power);
        power = scalar_mul(&power, &xi);
        i = i + 1;
    }
    assert(powers_nonzero(xi_spec, m as nat));
    Ok(v)
}

} // verus!
