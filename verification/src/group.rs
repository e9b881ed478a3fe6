//! Trusted boundary around the Ristretto group arithmetic of
//! `curve25519_dalek`: scalars, points, compression, and multiscalar
//! multiplication. Every verified contract in this crate that speaks of group
//! values does so through the named results declared here.

use vstd::prelude::*;
use curve25519_dalek::scalar::Scalar;
use curve25519_dalek::ristretto::CompressedRistretto;
use curve25519_dalek::ristretto::RistrettoPoint;
use curve25519_dalek::traits::Identity;
use curve25519_dalek::traits::MultiscalarMul;
use curve25519_dalek::traits::VartimeMultiscalarMul;
use rand_core::CryptoRngCore;
use zeroize::Zeroize;

verus! {

#[verifier::external_type_specification]
#[verifier::external_body]
pub struct ExScalar(Scalar);

#[verifier::external_type_specification]
#[verifier::external_body]
pub struct ExRistrettoPoint(RistrettoPoint);

/// The sum `a + b` in the scalar field of order `l` (the Ristretto group
/// order), as computed by scalar addition of `curve25519_dalek`.
pub uninterp spec fn s_add(a: Scalar, b: Scalar) -> Scalar;

/// The difference `a - b` in the scalar field, as computed by scalar
/// subtraction of `curve25519_dalek`.
pub uninterp spec fn s_sub(a: Scalar, b: Scalar) -> Scalar;

/// The product `a * b` in the scalar field, as computed by scalar
/// multiplication of `curve25519_dalek`.
pub uninterp spec fn s_mul(a: Scalar, b: Scalar) -> Scalar;

/// The additive inverse `-a` in the scalar field, as computed by scalar
/// negation of `curve25519_dalek`.
pub uninterp spec fn s_neg(a: Scalar) -> Scalar;

/// The scalar whose value is the integer `x`, as computed by
/// `Scalar::from(u32)`.
pub uninterp spec fn s_from_u32(x: u32) -> Scalar;

/// The multiplicative inverse `a^(l-2)`, as computed by `Scalar::invert`.
pub uninterp spec fn s_invert(a: Scalar) -> Scalar;

/// The scalar obtained by reducing a 64-byte little-endian integer modulo the
/// group order, as computed by `Scalar::from_bytes_mod_order_wide`.
pub uninterp spec fn wide_reduce_of(b: Seq<u8>) -> Scalar;

/// The canonical 32-byte little-endian encoding of a scalar, as computed by
/// `Scalar::to_bytes`.
pub uninterp spec fn scalar_bytes_of(s: Scalar) -> Seq<u8>;

/// The canonical 32-byte Ristretto compression of a point, as computed by
/// `RistrettoPoint::compress`.
pub uninterp spec fn compress_of(p: RistrettoPoint) -> Seq<u8>;

/// The point `s * p`, as computed by scalar-point multiplication of
/// `curve25519_dalek`.
pub uninterp spec fn smul_of(s: Scalar, p: RistrettoPoint) -> RistrettoPoint;

/// The point obtained by hashing 64 uniform bytes to the group, as computed
/// by `RistrettoPoint::from_uniform_bytes`.
pub uninterp spec fn uniform_point_of(b: Seq<u8>) -> RistrettoPoint;

/// The sum over `i` of `scalars[i] * points[i]`, as computed by the
/// constant-time `RistrettoPoint::multiscalar_mul`.
pub uninterp spec fn msm_of(scalars: Seq<Scalar>, points: Seq<RistrettoPoint>) -> RistrettoPoint;

/// The sum over `i` of `scalars[i] * points[i]`, as computed by the
/// variable-time `RistrettoPoint::vartime_multiscalar_mul`.
pub uninterp spec fn vartime_msm_of(
    scalars: Seq<Scalar>,
    points: Seq<RistrettoPoint>,
) -> RistrettoPoint;

/// The all-zero byte string of length 32: the canonical Ristretto compression
/// of the group identity.
pub open spec fn identity_bytes() -> Seq<u8> {
    Seq::new(32, |i: int| 0u8)
}

/// Relies on the `Clone` impl for `Scalar`, a `Copy` type: the clone is the
/// value itself.
pub assume_specification[ <Scalar as core::clone::Clone>::clone ](a: &Scalar) -> (r: Scalar)
    ensures
        r == *a,
;

/// Relies on the `Clone` impl for `RistrettoPoint`, a `Copy` type: the clone
/// is the value itself.
pub assume_specification[ <RistrettoPoint as core::clone::Clone>::clone ](
    a: &RistrettoPoint,
) -> (r: RistrettoPoint)
    ensures
        r == *a,
;

/// Relies on the `Add` impl for `Scalar`: reduced addition mod the group
/// order, a function of its two arguments alone.
#[verifier::external_body]
pub(crate) fn scalar_add(a: &Scalar, b: &Scalar) -> (r: Scalar)
    ensures
        r == s_add(*a, *b),
{
    a + b
}

/// Relies on the `Sub` impl for `Scalar`: reduced subtraction mod the group
/// order, a function of its two arguments alone.
#[verifier::external_body]
pub(crate) fn scalar_sub(a: &Scalar, b: &Scalar) -> (r: Scalar)
    ensures
        r == s_sub(*a, *b),
{
    a - b
}

/// Relies on the `Mul` impl for `Scalar`: reduced multiplication mod the
/// group order, a function of its two arguments alone.
#[verifier::external_body]
pub(crate) fn scalar_mul(a: &Scalar, b: &Scalar) -> (r: Scalar)
    ensures
        r == s_mul(*a, *b),
{
    a * b
}

/// Relies on the `Neg` impl for `Scalar`: reduced negation mod the group
/// order, a function of its argument alone.
#[verifier::external_body]
pub(crate) fn scalar_neg(a: &Scalar) -> (r: Scalar)
    ensures
        r == s_neg(*a),
{
    -a
}

/// Relies on `From<u32>` for `Scalar`: the scalar with the given integer
/// value, a function of its argument alone. Every 32-bit integer is below the
/// group order, so the embedding sends exactly 0 to the zero scalar.
#[verifier::external_body]
pub(crate) fn scalar_from_u32(x: u32) -> (r: Scalar)
    ensures
        r == s_from_u32(x),
        (r == s_from_u32(0)) <==> x == 0,
{
    Scalar::from(x)
}

/// Relies on `Scalar::invert`: the multiplicative inverse of a nonzero
/// scalar, a function of its argument alone.
#[verifier::external_body]
pub(crate) fn scalar_invert(a: &Scalar) -> (r: Scalar)
    ensures
        r == s_invert(*a),
{
    a.invert()
}

/// Relies on `Scalar::from_bytes_mod_order_wide`: wide reduction of 64
/// little-endian bytes mod the group order, a function of its argument alone.
#[verifier::external_body]
pub(crate) fn scalar_from_wide_bytes(b: &Vec<u8>) -> (r: Scalar)
    requires
        b@.len() == 64,
    ensures
        r == wide_reduce_of(b@),
{
    let mut arr = [0u8; 64];
    arr.copy_from_slice(b.as_slice());
    Scalar::from_bytes_mod_order_wide(&arr)
}

/// Relies on `Scalar::to_bytes`: the canonical 32-byte encoding; `Scalar`
/// values are always reduced, and distinct scalars have distinct encodings.
#[verifier::external_body]
pub(crate) fn scalar_to_bytes(s: &Scalar) -> (r: [u8; 32])
    ensures
        r@ == scalar_bytes_of(*s),
        r@.len() == 32,
{
    s.to_bytes()
}

/// Relies on `Scalar::from_canonical_bytes`: returns the unique scalar with
/// the given canonical encoding, and `None` exactly when no scalar has it.
#[verifier::external_body]
pub(crate) fn scalar_from_canonical_bytes(b: &[u8]) -> (r: Option<Scalar>)
    requires
        b@.len() == 32,
    ensures
        forall|s: Scalar| scalar_bytes_of(s) == b@ ==> r == Some(s),
        r is Some ==> scalar_bytes_of(r->Some_0) == b@,
{
    let mut arr = [0u8; 32];
    arr.copy_from_slice(b);
    Scalar::from_canonical_bytes(arr).into()
}

/// Relies on the `PartialEq` impl for `Scalar`: byte equality of the always
/// reduced representations, which is equality of the scalar values.
#[verifier::external_body]
pub(crate) fn scalar_eq(a: &Scalar, b: &Scalar) -> (r: bool)
    ensures
        r == (*a == *b),
{
    a == b
}

/// Relies on `RistrettoPoint::compress` and `CompressedRistretto::to_bytes`:
/// the canonical 32-byte encoding of the group element.
#[verifier::external_body]
pub(crate) fn point_compress(p: &RistrettoPoint) -> (r: [u8; 32])
    ensures
        r@ == compress_of(*p),
        r@.len() == 32,
{
    p.compress().to_bytes()
}

/// Relies on `CompressedRistretto::decompress`: succeeds exactly on canonical
/// encodings, and the returned point compresses back to the input bytes.
#[verifier::external_body]
pub(crate) fn point_decompress(b: &[u8]) -> (r: Option<RistrettoPoint>)
    requires
        b@.len() == 32,
    ensures
        r is Some ==> compress_of(r->Some_0) == b@,
        r is None ==> forall|p: RistrettoPoint| compress_of(p) != b@,
{
    let mut arr = [0u8; 32];
    arr.copy_from_slice(b);
    CompressedRistretto(arr).decompress()
}

/// Relies on the `PartialEq` impl for `RistrettoPoint`: two points are equal
/// as group elements exactly when their canonical compressions coincide.
#[verifier::external_body]
pub(crate) fn point_eq(a: &RistrettoPoint, b: &RistrettoPoint) -> (r: bool)
    ensures
        r == (compress_of(*a) == compress_of(*b)),
{
    a == b
}

/// Relies on the `Mul` impl for `Scalar` and `RistrettoPoint`: the scalar
/// multiple `s * p`, a function of its two arguments alone.
#[verifier::external_body]
pub(crate) fn point_mul(s: &Scalar, p: &RistrettoPoint) -> (r: RistrettoPoint)
    ensures
        r == smul_of(*s, *p),
{
    s * p
}

/// Relies on `RistrettoPoint::from_uniform_bytes`: a deterministic
/// hash-to-group map from 64 input bytes.
#[verifier::external_body]
pub(crate) fn point_from_uniform_bytes(b: &Vec<u8>) -> (r: RistrettoPoint)
    requires
        b@.len() == 64,
    ensures
        r == uniform_point_of(b@),
{
    let mut arr = [0u8; 64];
    arr.copy_from_slice(b.as_slice());
    RistrettoPoint::from_uniform_bytes(&arr)
}

/// The canonical compression of the Ristretto base point, as published with
/// the group (`RISTRETTO_BASEPOINT_COMPRESSED`).
pub open spec fn basepoint_bytes() -> Seq<u8> {
    seq![
        0xe2u8, 0xf2u8, 0xaeu8, 0x0au8, 0x6au8, 0xbcu8, 0x4eu8, 0x71u8,
        0xa8u8, 0x84u8, 0xa9u8, 0x61u8, 0xc5u8, 0x00u8, 0x51u8, 0x5fu8,
        0x58u8, 0xe3u8, 0x0bu8, 0x6au8, 0xa5u8, 0x82u8, 0xddu8, 0x8du8,
        0xb6u8, 0xa6u8, 0x59u8, 0x45u8, 0xe0u8, 0x8du8, 0x2du8, 0x76u8,
    ]
}

/// Relies on `RISTRETTO_BASEPOINT_POINT`: the distinguished base point, whose
/// canonical compression is `RISTRETTO_BASEPOINT_COMPRESSED`.
#[verifier::external_body]
pub(crate) fn basepoint() -> (r: RistrettoPoint)
    ensures
        compress_of(r) == basepoint_bytes(),
{
    curve25519_dalek::constants::RISTRETTO_BASEPOINT_POINT
}

/// Relies on the `Identity` impl for `RistrettoPoint`: the group identity,
/// whose canonical Ristretto compression is the all-zero byte string.
#[verifier::external_body]
pub(crate) fn point_identity() -> (r: RistrettoPoint)
    ensures
        compress_of(r) == identity_bytes(),
{
    RistrettoPoint::identity()
}

/// Relies on `RistrettoPoint::multiscalar_mul` (constant time): the sum of
/// `scalars[i] * points[i]`, a function of its arguments alone.
#[verifier::external_body]
pub(crate) fn multiscalar_mul(scalars: &Vec<Scalar>, points: &Vec<RistrettoPoint>) -> (r:
    RistrettoPoint)
    requires
        scalars@.len() == points@.len(),
    ensures
        r == msm_of(scalars@, points@),
{
    RistrettoPoint::multiscalar_mul(scalars.iter(), points.iter())
}

/// Relies on `RistrettoPoint::vartime_multiscalar_mul`: the sum of
/// `scalars[i] * points[i]`, a function of its arguments alone.
#[verifier::external_body]
pub(crate) fn vartime_multiscalar_mul(scalars: &Vec<Scalar>, points: &Vec<RistrettoPoint>) -> (r:
    RistrettoPoint)
    requires
        scalars@.len() == points@.len(),
    ensures
        r == vartime_msm_of(scalars@, points@),
{
    RistrettoPoint::vartime_multiscalar_mul(scalars.iter(), points.iter())
}

/// Relies on `Scalar::random`: a scalar sampled uniformly from the RNG.
/// Nothing is promised of the value.
#[verifier::external_body]
pub(crate) fn scalar_random<R: CryptoRngCore>(rng: &mut R) -> Scalar {
    Scalar::random(rng)
}

/// Relies on `RistrettoPoint::random`: a point sampled uniformly from the
/// RNG. Nothing is promised of the value.
#[verifier::external_body]
pub(crate) fn point_random<R: CryptoRngCore>(rng: &mut R) -> RistrettoPoint {
    RistrettoPoint::random(rng)
}

/// Relies on `RngCore::next_u64`: a random 64-bit integer. Nothing is
/// promised of the value.
#[verifier::external_body]
pub(crate) fn rng_next_u64<R: CryptoRngCore>(rng: &mut R) -> u64 {
    rng.next_u64()
}

/// Relies on the `Zeroize` impl for `Scalar`: overwrites the scalar in place.
#[verifier::external_body]
pub(crate) fn wipe_scalar(s: &mut Scalar) {
    s.zeroize();
}

/// Relies on the `Zeroize` impl for `Vec<Scalar>`: overwrites every entry and
/// clears the vector.
#[verifier::external_body]
pub(crate) fn wipe_scalar_vec(v: &mut Vec<Scalar>) {
    v.zeroize();
}

/// Relies on the `Zeroize` impl for `Vec<Vec<Scalar>>`: overwrites every
/// entry of every row and clears the rows.
#[verifier::external_body]
pub(crate) fn wipe_scalar_matrix(v: &mut Vec<Vec<Scalar>>) {
    v.zeroize();
}

} // verus!
