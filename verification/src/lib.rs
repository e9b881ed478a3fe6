//! Triptych zero-knowledge proofs: linkable one-out-of-many proofs of
//! discrete-logarithm knowledge over the Ristretto group.
//!
//! A prover holding a witness `(l, r)` for a public input set `M` of `N = n^m`
//! group elements (with `M[l] = r * G`) produces a non-interactive proof that
//! it knows such an opening, together with a linking tag `J = r^(-1) * U` that
//! exposes reuse of the same secret across proofs.

pub mod codec;
pub mod group;
pub mod params;
pub mod proofs;
pub mod statement;
pub mod transcript;
pub mod witness;

use vstd::prelude::*;
use vstd::arithmetic::power::pow;

verus! {

/// Base-`n` digits of `k`, little endian: index 0 is the least significant.
pub open spec fn digits(k: nat, n: nat, m: nat) -> Seq<nat> {
    Seq::new(m, |j: int| ((k as int) / pow(n as int, j as nat) % (n as int)) as nat)
}

/// The value whose base-`n` digits, little endian, are `d`.
pub open spec fn recompose(d: Seq<nat>, n: nat) -> nat
    decreases d.len(),
{
    if d.len() == 0 {
        0
    } else {
        d[0] + n * recompose(d.drop_first(), n)
    }
}

/// One more factor of the base raises the exponent by one.
pub proof fn lemma_pow_step(b: int, e: nat)
    ensures
        pow(b, e + 1) == pow(b, e) * b,
{
    vstd::arithmetic::power::lemma_pow1(b);
    vstd::arithmetic::power::lemma_pow_adds(b, e, 1);
}

/// With a base of at least two, a power strictly dominates its exponent.
pub proof fn lemma_pow_exceeds_exponent(n: nat, m: nat)
    requires
        n >= 2,
    ensures
        pow(n as int, m) > m,
    decreases m,
{
    if m == 0 {
        vstd::arithmetic::power::lemma_pow0(n as int);
    } else {
        lemma_pow_exceeds_exponent(n, (m - 1) as nat);
        lemma_pow_step(n as int, (m - 1) as nat);
        let prev = pow(n as int, (m - 1) as nat);
        vstd::arithmetic::power::lemma_pow_positive(n as int, (m - 1) as nat);
        assert(prev * (n as int) >= prev * 2) by (nonlinear_arith)
            requires n >= 2, prev >= 1;
    }
}

/// For bases and exponents of at least two, the product `m * n` is at most
/// `n^m`.
pub proof fn lemma_prod_le_pow(n: nat, m: nat)
    requires
        n >= 2,
        m >= 2,
    ensures
        (m as int) * (n as int) <= pow(n as int, m),
{
    lemma_pow_exceeds_exponent(n, (m - 1) as nat);
    lemma_pow_step(n as int, (m - 1) as nat);
    let prev = pow(n as int, (m - 1) as nat);
    assert((m as int) * (n as int) <= prev * (n as int)) by (nonlinear_arith)
        requires prev >= m as int, n >= 2;
}

/// Equality of two byte vectors, decided bytewise.
pub(crate) fn bytes_eq(a: &Vec<u8>, b: &Vec<u8>) -> (r: bool)
    ensures
        r == (a@ == b@),
{
    if a.len() != b.len() {
        return false;
    }
    let len = a.len();
    let mut i: usize = 0;
    while i < len
        invariant
            len == a@.len(),
            len == b@.len(),
            i <= len,
            forall|k: int| 0 <= k < i ==> a@[k] == b@[k],
        decreases len - i,
    {
        if a[i] != b[i] {
            return false;
        }
        i = i + 1;
    }
    proof {
        assert(a@ =~= b@);
    }
    true
}

/// Any value below `pow(n, m)` is recovered exactly from its `m` base-`n`
/// digits: the digit decomposition loses nothing.
pub proof fn lemma_digits_recompose(k: nat, n: nat, m: nat)
    requires
        n >= 2,
        (k as int) < pow(n as int, m),
    ensures
        recompose(digits(k, n, m), n) == k,
    decreases m,
{
    vstd::arithmetic::power::lemma_pow_positive(n as int, m);
    if m == 0 {
        vstd::arithmetic::power::lemma_pow0(n as int);
        assert(digits(k, n, 0).len() == 0);
    } else {
        let d = digits(k, n, m);
        let rest = digits(k / n, n, (m - 1) as nat);
        assert(pow(n as int, m) == n * pow(n as int, (m - 1) as nat)) by {
            lemma_pow_step(n as int, (m - 1) as nat);
        }
        assert(d.drop_first() =~= rest) by {
            assert forall|j: int| 0 <= j < m - 1 implies d.drop_first()[j] == rest[j] by {
                vstd::arithmetic::power::lemma_pow_positive(n as int, j as nat);
                vstd::arithmetic::div_mod::lemma_div_denominator(
                    k as int,
                    n as int,
                    pow(n as int, j as nat),
                );
                assert(pow(n as int, (j + 1) as nat) == n * pow(n as int, j as nat)) by {
                    lemma_pow_step(n as int, j as nat);
                }
            }
        }
        assert((k as int) / (n as int) < pow(n as int, (m - 1) as nat)) by {
            vstd::arithmetic::div_mod::lemma_multiply_divide_lt(
                k as int,
                n as int,
                pow(n as int, (m - 1) as nat),
            );
        }
        lemma_digits_recompose(k / n, n, (m - 1) as nat);
        assert(d[0] == k % n) by {
            vstd::arithmetic::power::lemma_pow0(n as int);
        }
        vstd::arithmetic::div_mod::lemma_fundamental_div_mod(k as int, n as int);
        assert(recompose(d, n) == k % n + n * (k / n));
    }
}

} // verus!
