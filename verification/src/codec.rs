//! The canonical byte encoding of a proof:
//! `A || B || C || D || X[0..m] || Y[0..m] || f[0..m][1..n] || z_A || z_C || z`,
//! each point as its 32-byte canonical compression and each scalar as its
//! canonical little-endian 32 bytes.
//!
//! Encoding is exact ([`Proof::to_bytes`] returns exactly [`proof_bytes`]),
//! and decoding inverts it at the byte level: whenever
//! [`Proof::from_bytes`] succeeds, the decoded proof re-encodes to the input
//! bytes, and decoding rejects any non-canonical point or scalar chunk and
//! any length that does not match the parameters.

use vstd::prelude::*;
use vstd::slice::slice_subrange;
use curve25519_dalek::ristretto::RistrettoPoint;
use curve25519_dalek::scalar::Scalar;
use crate::group::compress_of;
use crate::group::point_compress;
use crate::group::point_decompress;
use crate::group::scalar_bytes_of;
use crate::group::scalar_from_canonical_bytes;
use crate::group::scalar_to_bytes;
use crate::params::Parameters;
use crate::proofs::Proof;
use crate::proofs::ProofError;
use crate::proofs::f_view;

verus! {

/// The concatenated compressions of a point sequence.
pub open spec fn points_bytes(pts: Seq<RistrettoPoint>) -> Seq<u8>
    decreases pts.len(),
{
    if pts.len() == 0 {
        Seq::empty()
    } else {
        points_bytes(pts.drop_last()) + compress_of(pts.last())
    }
}

/// The concatenated canonical encodings of a scalar sequence.
pub open spec fn scalars_bytes(row: Seq<Scalar>) -> Seq<u8>
    decreases row.len(),
{
    if row.len() == 0 {
        Seq::empty()
    } else {
        scalars_bytes(row.drop_last()) + scalar_bytes_of(row.last())
    }
}

/// The concatenated encodings of the rows of a scalar matrix.
pub open spec fn rows_bytes(rows: Seq<Seq<Scalar>>) -> Seq<u8>
    decreases rows.len(),
{
    if rows.len() == 0 {
        Seq::empty()
    } else {
        rows_bytes(rows.drop_last()) + scalars_bytes(rows.last())
    }
}

/// The canonical encoding of a whole proof.
pub open spec fn proof_bytes(p: Proof) -> Seq<u8> {
    compress_of(p.a) + compress_of(p.b) + compress_of(p.c) + compress_of(p.d) + points_bytes(p.x@)
        + points_bytes(p.y@) + rows_bytes(f_view(p.f@)) + scalar_bytes_of(p.z_a) + scalar_bytes_of(
        p.z_c,
    ) + scalar_bytes_of(p.z)
}

/// The `c`-th 32-byte chunk of an encoding.
pub open spec fn chunk(bytes: Seq<u8>, c: int) -> Seq<u8> {
    bytes.subrange(32 * c, 32 * c + 32)
}

/// A byte string parses as a proof for `(n, m)`: it has exactly
/// `32 (7 + 2 m + m (n - 1))` bytes, its first `4 + 2 m` chunks are
/// canonical point compressions, and every remaining chunk is a canonical
/// scalar encoding. [`Proof::from_bytes`] succeeds exactly on such strings.
pub open spec fn decodable(bytes: Seq<u8>, n: nat, m: nat) -> bool {
    let cols = n as int - 1;
    let total = 7 + 2 * (m as int) + (m as int) * cols;
    &&& bytes.len() == 32 * total
    &&& forall|c: int|
        0 <= c < 4 + 2 * (m as int) ==> exists|p: RistrettoPoint|
            compress_of(p) == #[trigger] chunk(bytes, c)
    &&& forall|c: int|
        4 + 2 * (m as int) <= c < total ==> exists|s: Scalar|
            scalar_bytes_of(s) == #[trigger] chunk(bytes, c)
}

/// Every encoded component of the proof is exactly 32 bytes long, as every
/// canonical point compression and scalar encoding is.
pub open spec fn chunks32(p: Proof) -> bool {
    &&& compress_of(p.a).len() == 32
    &&& compress_of(p.b).len() == 32
    &&& compress_of(p.c).len() == 32
    &&& compress_of(p.d).len() == 32
    &&& forall|j: int| 0 <= j < p.x@.len() ==> compress_of(#[trigger] p.x@[j]).len() == 32
    &&& forall|j: int| 0 <= j < p.y@.len() ==> compress_of(#[trigger] p.y@[j]).len() == 32
    &&& forall|j: int, i: int|
        0 <= j < p.f@.len() && 0 <= i < p.f@[j]@.len() ==> scalar_bytes_of(
            #[trigger] p.f@[j]@[i],
        ).len() == 32
    &&& scalar_bytes_of(p.z_a).len() == 32
    &&& scalar_bytes_of(p.z_c).len() == 32
    &&& scalar_bytes_of(p.z).len() == 32
}

/// Two equal concatenations with equally long left parts have equal parts.
proof fn lemma_concat_cancel(a: Seq<u8>, b: Seq<u8>, c: Seq<u8>, d: Seq<u8>)
    requires
        a + b == c + d,
        a.len() == c.len(),
    ensures
        a == c,
        b == d,
{
    assert forall|t: int| 0 <= t < a.len() implies a[t] == c[t] by {
        assert((a + b)[t] == a[t]);
        assert((c + d)[t] == c[t]);
    }
    assert(a =~= c);
    assert((a + b).len() == (c + d).len());
    assert((a + b).len() == a.len() + b.len());
    assert((c + d).len() == c.len() + d.len());
    assert(b.len() == d.len());
    assert forall|t: int| 0 <= t < b.len() implies b[t] == d[t] by {
        assert((a + b)[t + a.len()] == b[t]);
        assert((c + d)[t + c.len()] == d[t]);
        assert((a + b)[t + a.len()] == (c + d)[t + c.len()]);
    }
    assert(b =~= d);
}

/// A point sequence with 32-byte compressions encodes to `32 k` bytes.
pub proof fn lemma_points_bytes_len(pts: Seq<RistrettoPoint>)
    requires
        forall|j: int| 0 <= j < pts.len() ==> compress_of(#[trigger] pts[j]).len() == 32,
    ensures
        points_bytes(pts).len() == 32 * pts.len(),
    decreases pts.len(),
{
    if pts.len() > 0 {
        assert(compress_of(pts[pts.len() - 1]).len() == 32);
        lemma_points_bytes_len(pts.drop_last());
    }
}

/// A scalar sequence with 32-byte encodings encodes to `32 k` bytes.
pub proof fn lemma_scalars_bytes_len(row: Seq<Scalar>)
    requires
        forall|i: int| 0 <= i < row.len() ==> scalar_bytes_of(#[trigger] row[i]).len() == 32,
    ensures
        scalars_bytes(row).len() == 32 * row.len(),
    decreases row.len(),
{
    if row.len() > 0 {
        assert(scalar_bytes_of(row[row.len() - 1]).len() == 32);
        lemma_scalars_bytes_len(row.drop_last());
    }
}

/// A matrix of `cols`-wide rows of 32-byte scalars encodes to
/// `32 cols k` bytes.
pub proof fn lemma_rows_bytes_len(rows: Seq<Seq<Scalar>>, cols: nat)
    requires
        forall|j: int| 0 <= j < rows.len() ==> (#[trigger] rows[j]).len() == cols,
        forall|j: int, i: int|
            0 <= j < rows.len() && 0 <= i < rows[j].len() ==> scalar_bytes_of(
                #[trigger] rows[j][i],
            ).len() == 32,
    ensures
        rows_bytes(rows).len() == 32 * cols * rows.len(),
    decreases rows.len(),
{
    if rows.len() > 0 {
        let last = rows[rows.len() - 1];
        assert(last.len() == cols);
        lemma_scalars_bytes_len(last);
        lemma_rows_bytes_len(rows.drop_last(), cols);
        assert(32 * cols * (rows.len() - 1) + 32 * cols == 32 * cols * rows.len())
            by (nonlinear_arith);
    } else {
        assert(32 * cols * rows.len() == 0) by (nonlinear_arith)
            requires rows.len() == 0;
    }
}

/// Equal encodings of equally long point sequences force equal
/// compressions, pointwise.
pub proof fn lemma_points_bytes_binding(xs: Seq<RistrettoPoint>, ys: Seq<RistrettoPoint>)
    requires
        xs.len() == ys.len(),
        forall|j: int| 0 <= j < xs.len() ==> compress_of(#[trigger] xs[j]).len() == 32,
        forall|j: int| 0 <= j < ys.len() ==> compress_of(#[trigger] ys[j]).len() == 32,
        points_bytes(xs) == points_bytes(ys),
    ensures
        forall|j: int|
            0 <= j < xs.len() ==> compress_of(#[trigger] xs[j]) == compress_of(ys[j]),
    decreases xs.len(),
{
    if xs.len() > 0 {
        assert(compress_of(xs[xs.len() - 1]).len() == 32);
        assert(compress_of(ys[ys.len() - 1]).len() == 32);
        lemma_points_bytes_len(xs.drop_last());
        lemma_points_bytes_len(ys.drop_last());
        lemma_concat_cancel(
            points_bytes(xs.drop_last()),
            compress_of(xs.last()),
            points_bytes(ys.drop_last()),
            compress_of(ys.last()),
        );
        lemma_points_bytes_binding(xs.drop_last(), ys.drop_last());
        assert forall|j: int| 0 <= j < xs.len() implies compress_of(#[trigger] xs[j])
            == compress_of(ys[j]) by {
            if j < xs.len() - 1 {
                assert(xs.drop_last()[j] == xs[j]);
                assert(ys.drop_last()[j] == ys[j]);
            }
        }
    }
}

/// Equal encodings of equally long scalar sequences force equal canonical
/// encodings, pointwise.
pub proof fn lemma_scalars_bytes_binding(r1: Seq<Scalar>, r2: Seq<Scalar>)
    requires
        r1.len() == r2.len(),
        forall|i: int| 0 <= i < r1.len() ==> scalar_bytes_of(#[trigger] r1[i]).len() == 32,
        forall|i: int| 0 <= i < r2.len() ==> scalar_bytes_of(#[trigger] r2[i]).len() == 32,
        scalars_bytes(r1) == scalars_bytes(r2),
    ensures
        forall|i: int|
            0 <= i < r1.len() ==> scalar_bytes_of(#[trigger] r1[i]) == scalar_bytes_of(r2[i]),
    decreases r1.len(),
{
    if r1.len() > 0 {
        assert(scalar_bytes_of(r1[r1.len() - 1]).len() == 32);
        assert(scalar_bytes_of(r2[r2.len() - 1]).len() == 32);
        lemma_scalars_bytes_len(r1.drop_last());
        lemma_scalars_bytes_len(r2.drop_last());
        lemma_concat_cancel(
            scalars_bytes(r1.drop_last()),
            scalar_bytes_of(r1.last()),
            scalars_bytes(r2.drop_last()),
            scalar_bytes_of(r2.last()),
        );
        lemma_scalars_bytes_binding(r1.drop_last(), r2.drop_last());
        assert forall|i: int| 0 <= i < r1.len() implies scalar_bytes_of(#[trigger] r1[i])
            == scalar_bytes_of(r2[i]) by {
            if i < r1.len() - 1 {
                assert(r1.drop_last()[i] == r1[i]);
                assert(r2.drop_last()[i] == r2[i]);
            }
        }
    }
}

/// Equal encodings of equally shaped matrices force equal canonical scalar
/// encodings, entrywise.
pub proof fn lemma_rows_bytes_binding(rs1: Seq<Seq<Scalar>>, rs2: Seq<Seq<Scalar>>, cols: nat)
    requires
        rs1.len() == rs2.len(),
        forall|j: int| 0 <= j < rs1.len() ==> (#[trigger] rs1[j]).len() == cols,
        forall|j: int| 0 <= j < rs2.len() ==> (#[trigger] rs2[j]).len() == cols,
        forall|j: int, i: int|
            0 <= j < rs1.len() && 0 <= i < rs1[j].len() ==> scalar_bytes_of(
                #[trigger] rs1[j][i],
            ).len() == 32,
        forall|j: int, i: int|
            0 <= j < rs2.len() && 0 <= i < rs2[j].len() ==> scalar_bytes_of(
                #[trigger] rs2[j][i],
            ).len() == 32,
        rows_bytes(rs1) == rows_bytes(rs2),
    ensures
        forall|j: int, i: int|
            0 <= j < rs1.len() && 0 <= i < cols ==> scalar_bytes_of(#[trigger] rs1[j][i])
                == scalar_bytes_of(rs2[j][i]),
    decreases rs1.len(),
{
    if rs1.len() > 0 {
        let l1 = rs1[rs1.len() - 1];
        let l2 = rs2[rs2.len() - 1];
        lemma_rows_bytes_len(rs1.drop_last(), cols);
        lemma_rows_bytes_len(rs2.drop_last(), cols);
        lemma_concat_cancel(
            rows_bytes(rs1.drop_last()),
            scalars_bytes(l1),
            rows_bytes(rs2.drop_last()),
            scalars_bytes(l2),
        );
        lemma_scalars_bytes_binding(l1, l2);
        lemma_rows_bytes_binding(rs1.drop_last(), rs2.drop_last(), cols);
        assert forall|j: int, i: int|
            0 <= j < rs1.len() && 0 <= i < cols implies scalar_bytes_of(#[trigger] rs1[j][i])
            == scalar_bytes_of(rs2[j][i]) by {
            if j < rs1.len() - 1 {
                assert(rs1.drop_last()[j] == rs1[j]);
                assert(rs2.drop_last()[j] == rs2[j]);
            } else {
                assert(rs1[j] == l1);
                assert(rs2[j] == l2);
            }
        }
    }
}

/// The byte format is injective: two well-shaped proofs with the same
/// canonical encoding agree on the compression of every point and the
/// canonical encoding of every scalar. Together with the contracts of
/// [`Proof::to_bytes`] and [`Proof::from_bytes`], this pins decoding down:
/// a successfully decoded byte string determines the proof up to the
/// canonical encodings of its components.
#[verifier::rlimit(100)]
#[verifier::spinoff_prover]
pub proof fn lemma_proof_bytes_binding(p: Proof, q: Proof, n: nat, m: nat)
    requires
        p.wf(n, m),
        q.wf(n, m),
        n >= 1,
        chunks32(p),
        chunks32(q),
        proof_bytes(p) == proof_bytes(q),
    ensures
        compress_of(p.a) == compress_of(q.a),
        compress_of(p.b) == compress_of(q.b),
        compress_of(p.c) == compress_of(q.c),
        compress_of(p.d) == compress_of(q.d),
        forall|j: int|
            0 <= j < m as int ==> compress_of(#[trigger] p.x@[j]) == compress_of(q.x@[j]),
        forall|j: int|
            0 <= j < m as int ==> compress_of(#[trigger] p.y@[j]) == compress_of(q.y@[j]),
        forall|j: int, i: int|
            0 <= j < m as int && 0 <= i < n as int - 1 ==> scalar_bytes_of(
                #[trigger] p.f@[j]@[i],
            ) == scalar_bytes_of(q.f@[j]@[i]),
        scalar_bytes_of(p.z_a) == scalar_bytes_of(q.z_a),
        scalar_bytes_of(p.z_c) == scalar_bytes_of(q.z_c),
        scalar_bytes_of(p.z) == scalar_bytes_of(q.z),
{
    let fp = f_view(p.f@);
    let fq = f_view(q.f@);
    assert(forall|j: int| 0 <= j < fp.len() ==> (#[trigger] fp[j]).len() == (n - 1) as nat);
    assert(forall|j: int| 0 <= j < fq.len() ==> (#[trigger] fq[j]).len() == (n - 1) as nat);
    lemma_points_bytes_len(p.x@);
    lemma_points_bytes_len(q.x@);
    lemma_points_bytes_len(p.y@);
    lemma_points_bytes_len(q.y@);
    lemma_rows_bytes_len(fp, (n - 1) as nat);
    lemma_rows_bytes_len(fq, (n - 1) as nat);
    let tail_p1 = compress_of(p.b) + compress_of(p.c) + compress_of(p.d) + points_bytes(p.x@)
        + points_bytes(p.y@) + rows_bytes(fp) + scalar_bytes_of(p.z_a) + scalar_bytes_of(p.z_c)
        + scalar_bytes_of(p.z);
    let tail_q1 = compress_of(q.b) + compress_of(q.c) + compress_of(q.d) + points_bytes(q.x@)
        + points_bytes(q.y@) + rows_bytes(fq) + scalar_bytes_of(q.z_a) + scalar_bytes_of(q.z_c)
        + scalar_bytes_of(q.z);
    assert(proof_bytes(p) =~= compress_of(p.a) + tail_p1);
    assert(proof_bytes(q) =~= compress_of(q.a) + tail_q1);
    lemma_concat_cancel(compress_of(p.a), tail_p1, compress_of(q.a), tail_q1);
    let tail_p2 = compress_of(p.c) + compress_of(p.d) + points_bytes(p.x@) + points_bytes(p.y@)
        + rows_bytes(fp) + scalar_bytes_of(p.z_a) + scalar_bytes_of(p.z_c) + scalar_bytes_of(p.z);
    let tail_q2 = compress_of(q.c) + compress_of(q.d) + points_bytes(q.x@) + points_bytes(q.y@)
        + rows_bytes(fq) + scalar_bytes_of(q.z_a) + scalar_bytes_of(q.z_c) + scalar_bytes_of(q.z);
    assert(tail_p1 =~= compress_of(p.b) + tail_p2);
    assert(tail_q1 =~= compress_of(q.b) + tail_q2);
    lemma_concat_cancel(compress_of(p.b), tail_p2, compress_of(q.b), tail_q2);
    let tail_p3 = compress_of(p.d) + points_bytes(p.x@) + points_bytes(p.y@) + rows_bytes(fp)
        + scalar_bytes_of(p.z_a) + scalar_bytes_of(p.z_c) + scalar_bytes_of(p.z);
    let tail_q3 = compress_of(q.d) + points_bytes(q.x@) + points_bytes(q.y@) + rows_bytes(fq)
        + scalar_bytes_of(q.z_a) + scalar_bytes_of(q.z_c) + scalar_bytes_of(q.z);
    assert(tail_p2 =~= compress_of(p.c) + tail_p3);
    assert(tail_q2 =~= compress_of(q.c) + tail_q3);
    lemma_concat_cancel(compress_of(p.c), tail_p3, compress_of(q.c), tail_q3);
    let tail_p4 = points_bytes(p.x@) + points_bytes(p.y@) + rows_bytes(fp) + scalar_bytes_of(
        p.z_a,
    ) + scalar_bytes_of(p.z_c) + scalar_bytes_of(p.z);
    let tail_q4 = points_bytes(q.x@) + points_bytes(q.y@) + rows_bytes(fq) + scalar_bytes_of(
        q.z_a,
    ) + scalar_bytes_of(q.z_c) + scalar_bytes_of(q.z);
    assert(tail_p3 =~= compress_of(p.d) + tail_p4);
    assert(tail_q3 =~= compress_of(q.d) + tail_q4);
    lemma_concat_cancel(compress_of(p.d), tail_p4, compress_of(q.d), tail_q4);
    let tail_p5 = points_bytes(p.y@) + rows_bytes(fp) + scalar_bytes_of(p.z_a) + scalar_bytes_of(
        p.z_c,
    ) + scalar_bytes_of(p.z);
    let tail_q5 = points_bytes(q.y@) + rows_bytes(fq) + scalar_bytes_of(q.z_a) + scalar_bytes_of(
        q.z_c,
    ) + scalar_bytes_of(q.z);
    assert(tail_p4 =~= points_bytes(p.x@) + tail_p5);
    assert(tail_q4 =~= points_bytes(q.x@) + tail_q5);
    lemma_concat_cancel(points_bytes(p.x@), tail_p5, points_bytes(q.x@), tail_q5);
    lemma_points_bytes_binding(p.x@, q.x@);
    let tail_p6 = rows_bytes(fp) + scalar_bytes_of(p.z_a) + scalar_bytes_of(p.z_c)
        + scalar_bytes_of(p.z);
    let tail_q6 = rows_bytes(fq) + scalar_bytes_of(q.z_a) + scalar_bytes_of(q.z_c)
        + scalar_bytes_of(q.z);
    assert(tail_p5 =~= points_bytes(p.y@) + tail_p6);
    assert(tail_q5 =~= points_bytes(q.y@) + tail_q6);
    lemma_concat_cancel(points_bytes(p.y@), tail_p6, points_bytes(q.y@), tail_q6);
    lemma_points_bytes_binding(p.y@, q.y@);
    let tail_p7 = scalar_bytes_of(p.z_a) + scalar_bytes_of(p.z_c) + scalar_bytes_of(p.z);
    let tail_q7 = scalar_bytes_of(q.z_a) + scalar_bytes_of(q.z_c) + scalar_bytes_of(q.z);
    assert(tail_p6 =~= rows_bytes(fp) + tail_p7);
    assert(tail_q6 =~= rows_bytes(fq) + tail_q7);
    lemma_concat_cancel(rows_bytes(fp), tail_p7, rows_bytes(fq), tail_q7);
    lemma_rows_bytes_binding(fp, fq, (n - 1) as nat);
    let tail_p8 = scalar_bytes_of(p.z_c) + scalar_bytes_of(p.z);
    let tail_q8 = scalar_bytes_of(q.z_c) + scalar_bytes_of(q.z);
    assert(tail_p7 =~= scalar_bytes_of(p.z_a) + tail_p8);
    assert(tail_q7 =~= scalar_bytes_of(q.z_a) + tail_q8);
    lemma_concat_cancel(scalar_bytes_of(p.z_a), tail_p8, scalar_bytes_of(q.z_a), tail_q8);
    lemma_concat_cancel(scalar_bytes_of(p.z_c), scalar_bytes_of(p.z), scalar_bytes_of(q.z_c), scalar_bytes_of(q.z));
    assert forall|j: int, i: int|
        0 <= j < m as int && 0 <= i < n as int - 1 implies scalar_bytes_of(
        #[trigger] p.f@[j]@[i],
    ) == scalar_bytes_of(q.f@[j]@[i]) by {
        assert(fp[j] == p.f@[j]@);
        assert(fq[j] == q.f@[j]@);
        assert(scalar_bytes_of(fp[j][i]) == scalar_bytes_of(fq[j][i]));
    }
}

/// A subrange that lies within the left part of a concatenation is a
/// subrange of that part.
proof fn lemma_subrange_left(a: Seq<u8>, b: Seq<u8>, i: int, j: int)
    requires
        0 <= i <= j <= a.len(),
    ensures
        (a + b).subrange(i, j) == a.subrange(i, j),
{
    assert((a + b).subrange(i, j) =~= a.subrange(i, j));
}

/// A subrange that lies within the right part of a concatenation is a
/// shifted subrange of that part.
proof fn lemma_subrange_right(a: Seq<u8>, b: Seq<u8>, i: int, j: int)
    requires
        a.len() <= i <= j <= a.len() + b.len(),
    ensures
        (a + b).subrange(i, j) == b.subrange(i - a.len(), j - a.len()),
{
    assert((a + b).subrange(i, j) =~= b.subrange(i - a.len(), j - a.len()));
}

/// The `j`-th chunk of a point-sequence encoding is the `j`-th compression.
proof fn lemma_points_bytes_chunk(pts: Seq<RistrettoPoint>, j: int)
    requires
        forall|q: int| 0 <= q < pts.len() ==> compress_of(#[trigger] pts[q]).len() == 32,
        0 <= j < pts.len(),
    ensures
        points_bytes(pts).subrange(32 * j, 32 * j + 32) == compress_of(pts[j]),
    decreases pts.len(),
{
    lemma_points_bytes_len(pts.drop_last());
    assert(compress_of(pts[pts.len() - 1]).len() == 32);
    if j == pts.len() - 1 {
        lemma_subrange_right(points_bytes(pts.drop_last()), compress_of(pts.last()), 32 * j, 32
            * j + 32);
        assert(compress_of(pts.last()).subrange(0, 32) =~= compress_of(pts.last()));
    } else {
        lemma_subrange_left(points_bytes(pts.drop_last()), compress_of(pts.last()), 32 * j, 32 * j
            + 32);
        lemma_points_bytes_chunk(pts.drop_last(), j);
        assert(pts.drop_last()[j] == pts[j]);
    }
}

/// The `i`-th chunk of a scalar-sequence encoding is the `i`-th canonical
/// encoding.
proof fn lemma_scalars_bytes_chunk(row: Seq<Scalar>, i: int)
    requires
        forall|q: int| 0 <= q < row.len() ==> scalar_bytes_of(#[trigger] row[q]).len() == 32,
        0 <= i < row.len(),
    ensures
        scalars_bytes(row).subrange(32 * i, 32 * i + 32) == scalar_bytes_of(row[i]),
    decreases row.len(),
{
    lemma_scalars_bytes_len(row.drop_last());
    assert(scalar_bytes_of(row[row.len() - 1]).len() == 32);
    if i == row.len() - 1 {
        lemma_subrange_right(scalars_bytes(row.drop_last()), scalar_bytes_of(row.last()), 32 * i, 32
            * i + 32);
        assert(scalar_bytes_of(row.last()).subrange(0, 32) =~= scalar_bytes_of(row.last()));
    } else {
        lemma_subrange_left(scalars_bytes(row.drop_last()), scalar_bytes_of(row.last()), 32 * i, 32
            * i + 32);
        lemma_scalars_bytes_chunk(row.drop_last(), i);
        assert(row.drop_last()[i] == row[i]);
    }
}

/// Chunk `j cols + i` of a matrix encoding is entry `(j, i)`'s canonical
/// encoding.
proof fn lemma_rows_bytes_chunk(rows: Seq<Seq<Scalar>>, cols: nat, j: int, i: int)
    requires
        forall|q: int| 0 <= q < rows.len() ==> (#[trigger] rows[q]).len() == cols,
        forall|q: int, e: int|
            0 <= q < rows.len() && 0 <= e < rows[q].len() ==> scalar_bytes_of(
                #[trigger] rows[q][e],
            ).len() == 32,
        0 <= j < rows.len(),
        0 <= i < cols,
    ensures
        rows_bytes(rows).subrange(
            32 * (j * cols + i),
            32 * (j * cols + i) + 32,
        ) == scalar_bytes_of(rows[j][i]),
    decreases rows.len(),
{
    let last = rows[rows.len() - 1];
    lemma_rows_bytes_len(rows.drop_last(), cols);
    lemma_scalars_bytes_len(last);
    let t = 32 * (j * cols + i);
    if j == rows.len() - 1 {
        assert(t == 32 * cols * (rows.len() - 1) + 32 * i) by (nonlinear_arith)
            requires t == 32 * (j * cols + i), j == rows.len() - 1;
        assert(32 * i + 32 <= 32 * cols) by (nonlinear_arith)
            requires 0 <= i < cols;
        lemma_subrange_right(rows_bytes(rows.drop_last()), scalars_bytes(last), t, t + 32);
        lemma_scalars_bytes_chunk(last, i);
    } else {
        assert(t + 32 <= 32 * cols * (rows.len() - 1)) by (nonlinear_arith)
            requires
                t == 32 * (j * cols + i),
                0 <= i < cols,
                0 <= j < rows.len() - 1,
        ;
        assert(0 <= t) by (nonlinear_arith)
            requires t == 32 * (j * cols + i), 0 <= i, 0 <= j, 0 <= cols;
        lemma_subrange_left(rows_bytes(rows.drop_last()), scalars_bytes(last), t, t + 32);
        lemma_rows_bytes_chunk(rows.drop_last(), cols, j, i);
        assert(rows.drop_last()[j] == rows[j]);
    }
}

/// The canonical encoding of a well-shaped proof is decodable: re-decoding
/// an encoding always succeeds. Together with the contracts of
/// [`Proof::to_bytes`] and [`Proof::from_bytes`], this settles the
/// round trip: decoding an encoding succeeds, and the decoded proof agrees
/// with the original on every component encoding by
/// [`lemma_proof_bytes_binding`].
#[verifier::rlimit(100)]
#[verifier::spinoff_prover]
pub proof fn lemma_encoding_decodable(p: Proof, n: nat, m: nat)
    requires
        p.wf(n, m),
        chunks32(p),
        n >= 2,
    ensures
        decodable(proof_bytes(p), n, m),
{
    let fp = f_view(p.f@);
    let cols = (n - 1) as nat;
    assert(forall|j: int| 0 <= j < fp.len() ==> (#[trigger] fp[j]).len() == cols);
    lemma_points_bytes_len(p.x@);
    lemma_points_bytes_len(p.y@);
    lemma_rows_bytes_len(fp, cols);
    let pb = proof_bytes(p);
    let pre_a = compress_of(p.a);
    let pre_b = pre_a + compress_of(p.b);
    let pre_c = pre_b + compress_of(p.c);
    let pre_d = pre_c + compress_of(p.d);
    let pre_x = pre_d + points_bytes(p.x@);
    let pre_y = pre_x + points_bytes(p.y@);
    let pre_f = pre_y + rows_bytes(fp);
    let pre_za = pre_f + scalar_bytes_of(p.z_a);
    let pre_zc = pre_za + scalar_bytes_of(p.z_c);
    assert(pb =~= pre_zc + scalar_bytes_of(p.z));
    let total = 7 + 2 * (m as int) + (m as int) * (cols as int);
    assert(32 * (cols as int) * (m as int) == 32 * ((m as int) * (cols as int)))
        by (nonlinear_arith);
    assert(pb.len() == 32 * total);
    assert forall|c: int| 0 <= c < 4 + 2 * (m as int) implies exists|q: RistrettoPoint|
        compress_of(q) == #[trigger] chunk(pb, c) by {
        if c == 0 {
            lemma_subrange_left(pre_zc, scalar_bytes_of(p.z), 0, 32);
            lemma_subrange_left(pre_za, scalar_bytes_of(p.z_c), 0, 32);
            lemma_subrange_left(pre_f, scalar_bytes_of(p.z_a), 0, 32);
            lemma_subrange_left(pre_y, rows_bytes(fp), 0, 32);
            lemma_subrange_left(pre_x, points_bytes(p.y@), 0, 32);
            lemma_subrange_left(pre_d, points_bytes(p.x@), 0, 32);
            lemma_subrange_left(pre_c, compress_of(p.d), 0, 32);
            lemma_subrange_left(pre_b, compress_of(p.c), 0, 32);
            lemma_subrange_left(pre_a, compress_of(p.b), 0, 32);
            assert(pre_a.subrange(0, 32) =~= compress_of(p.a));
            assert(compress_of(p.a) == chunk(pb, 0));
        } else if c == 1 {
            lemma_subrange_left(pre_zc, scalar_bytes_of(p.z), 32, 64);
            lemma_subrange_left(pre_za, scalar_bytes_of(p.z_c), 32, 64);
            lemma_subrange_left(pre_f, scalar_bytes_of(p.z_a), 32, 64);
            lemma_subrange_left(pre_y, rows_bytes(fp), 32, 64);
            lemma_subrange_left(pre_x, points_bytes(p.y@), 32, 64);
            lemma_subrange_left(pre_d, points_bytes(p.x@), 32, 64);
            lemma_subrange_left(pre_c, compress_of(p.d), 32, 64);
            lemma_subrange_left(pre_b, compress_of(p.c), 32, 64);
            lemma_subrange_right(pre_a, compress_of(p.b), 32, 64);
            assert(compress_of(p.b).subrange(0, 32) =~= compress_of(p.b));
            assert(compress_of(p.b) == chunk(pb, 1));
        } else if c == 2 {
            lemma_subrange_left(pre_zc, scalar_bytes_of(p.z), 64, 96);
            lemma_subrange_left(pre_za, scalar_bytes_of(p.z_c), 64, 96);
            lemma_subrange_left(pre_f, scalar_bytes_of(p.z_a), 64, 96);
            lemma_subrange_left(pre_y, rows_bytes(fp), 64, 96);
            lemma_subrange_left(pre_x, points_bytes(p.y@), 64, 96);
            lemma_subrange_left(pre_d, points_bytes(p.x@), 64, 96);
            lemma_subrange_left(pre_c, compress_of(p.d), 64, 96);
            lemma_subrange_right(pre_b, compress_of(p.c), 64, 96);
            assert(compress_of(p.c).subrange(0, 32) =~= compress_of(p.c));
            assert(compress_of(p.c) == chunk(pb, 2));
        } else if c == 3 {
            lemma_subrange_left(pre_zc, scalar_bytes_of(p.z), 96, 128);
            lemma_subrange_left(pre_za, scalar_bytes_of(p.z_c), 96, 128);
            lemma_subrange_left(pre_f, scalar_bytes_of(p.z_a), 96, 128);
            lemma_subrange_left(pre_y, rows_bytes(fp), 96, 128);
            lemma_subrange_left(pre_x, points_bytes(p.y@), 96, 128);
            lemma_subrange_left(pre_d, points_bytes(p.x@), 96, 128);
            lemma_subrange_right(pre_c, compress_of(p.d), 96, 128);
            assert(compress_of(p.d).subrange(0, 32) =~= compress_of(p.d));
            assert(compress_of(p.d) == chunk(pb, 3));
        } else if c < 4 + m as int {
            let j = c - 4;
            lemma_subrange_left(pre_zc, scalar_bytes_of(p.z), 32 * c, 32 * c + 32);
            lemma_subrange_left(pre_za, scalar_bytes_of(p.z_c), 32 * c, 32 * c + 32);
            lemma_subrange_left(pre_f, scalar_bytes_of(p.z_a), 32 * c, 32 * c + 32);
            lemma_subrange_left(pre_y, rows_bytes(fp), 32 * c, 32 * c + 32);
            lemma_subrange_left(pre_x, points_bytes(p.y@), 32 * c, 32 * c + 32);
            lemma_subrange_right(pre_d, points_bytes(p.x@), 32 * c, 32 * c + 32);
            lemma_points_bytes_chunk(p.x@, j);
            assert(compress_of(p.x@[j]) == chunk(pb, c));
        } else {
            let j = c - 4 - m as int;
            lemma_subrange_left(pre_zc, scalar_bytes_of(p.z), 32 * c, 32 * c + 32);
            lemma_subrange_left(pre_za, scalar_bytes_of(p.z_c), 32 * c, 32 * c + 32);
            lemma_subrange_left(pre_f, scalar_bytes_of(p.z_a), 32 * c, 32 * c + 32);
            lemma_subrange_left(pre_y, rows_bytes(fp), 32 * c, 32 * c + 32);
            lemma_subrange_right(pre_x, points_bytes(p.y@), 32 * c, 32 * c + 32);
            lemma_points_bytes_chunk(p.y@, j);
            assert(compress_of(p.y@[j]) == chunk(pb, c));
        }
    }
    assert forall|c: int| 4 + 2 * (m as int) <= c < total implies exists|s: Scalar|
        scalar_bytes_of(s) == #[trigger] chunk(pb, c) by {
        let c0 = 4 + 2 * (m as int) + (m as int) * (cols as int);
        if c < c0 {
            let t = c - 4 - 2 * (m as int);
            let j = t / (cols as int);
            let i = t % (cols as int);
            vstd::arithmetic::div_mod::lemma_fundamental_div_mod(t, cols as int);
            assert(0 <= j < m as int) by (nonlinear_arith)
                requires
                    0 <= t < (m as int) * (cols as int),
                    cols >= 1,
                    j == t / (cols as int),
                    i == t % (cols as int),
                    t == (cols as int) * j + i,
                    0 <= i < cols as int,
            ;
            lemma_subrange_left(pre_zc, scalar_bytes_of(p.z), 32 * c, 32 * c + 32);
            lemma_subrange_left(pre_za, scalar_bytes_of(p.z_c), 32 * c, 32 * c + 32);
            lemma_subrange_left(pre_f, scalar_bytes_of(p.z_a), 32 * c, 32 * c + 32);
            lemma_subrange_right(pre_y, rows_bytes(fp), 32 * c, 32 * c + 32);
            assert(32 * c - pre_y.len() == 32 * (j * (cols as int) + i)) by (nonlinear_arith)
                requires
                    pre_y.len() == 128 + 64 * (m as int),
                    c == 4 + 2 * (m as int) + t,
                    t == (cols as int) * j + i,
            ;
            lemma_rows_bytes_chunk(fp, cols, j, i);
            assert(scalar_bytes_of(fp[j][i]) == chunk(pb, c));
        } else if c == c0 {
            lemma_subrange_left(pre_zc, scalar_bytes_of(p.z), 32 * c, 32 * c + 32);
            lemma_subrange_left(pre_za, scalar_bytes_of(p.z_c), 32 * c, 32 * c + 32);
            lemma_subrange_right(pre_f, scalar_bytes_of(p.z_a), 32 * c, 32 * c + 32);
            assert(scalar_bytes_of(p.z_a).subrange(0, 32) =~= scalar_bytes_of(p.z_a));
            assert(scalar_bytes_of(p.z_a) == chunk(pb, c));
        } else if c == c0 + 1 {
            lemma_subrange_left(pre_zc, scalar_bytes_of(p.z), 32 * c, 32 * c + 32);
            lemma_subrange_right(pre_za, scalar_bytes_of(p.z_c), 32 * c, 32 * c + 32);
            assert(scalar_bytes_of(p.z_c).subrange(0, 32) =~= scalar_bytes_of(p.z_c));
            assert(scalar_bytes_of(p.z_c) == chunk(pb, c));
        } else {
            lemma_subrange_right(pre_zc, scalar_bytes_of(p.z), 32 * c, 32 * c + 32);
            assert(scalar_bytes_of(p.z).subrange(0, 32) =~= scalar_bytes_of(p.z));
            assert(scalar_bytes_of(p.z) == chunk(pb, c));
        }
    }
}

/// Appends the 32 bytes of `b` to `out`.
fn extend32(out: &mut Vec<u8>, b: &[u8; 32])
    ensures
        final(out)@ == old(out)@ + b@,
{
    let ghost start = out@;
    let mut i: usize = 0;
    while i < 32
        invariant
            i <= 32,
            out@ == start + b@.take(i as int),
        decreases 32 - i,
    {
        out.push(b[i]);
        proof {
            assert(start + b@.take(i + 1) =~= (start + b@.take(i as int)).push(b@[i as int]));
        }
        i = i + 1;
    }
    proof {
        assert(start + b@.take(32) =~= start + b@);
    }
}

impl Proof {
    /// Serialises the proof into its canonical byte encoding.
    pub fn to_bytes(&self) -> (r: Vec<u8>)
        ensures
            r@ == proof_bytes(*self),
            chunks32(*self),
    {
        let mut out: Vec<u8> = Vec::new();
        let ab = point_compress(&self.a);
        extend32(&mut out, &ab);
        let bb = point_compress(&self.b);
        extend32(&mut out, &bb);
        let cb = point_compress(&self.c);
        extend32(&mut out, &cb);
        let db = point_compress(&self.d);
        extend32(&mut out, &db);
        let ghost abcd = compress_of(self.a) + compress_of(self.b) + compress_of(self.c)
            + compress_of(self.d);
        proof {
            assert(out@ =~= abcd);
        }
        let xlen = self.x.len();
        let mut jx: usize = 0;
        while jx < xlen
            invariant
                xlen == self.x@.len(),
                jx <= xlen,
                out@ == abcd + points_bytes(self.x@.take(jx as int)),
                forall|q: int| 0 <= q < jx ==> compress_of(#[trigger] self.x@[q]).len() == 32,
            decreases xlen - jx,
        {
            let pb = point_compress(&self.x[jx]);
            extend32(&mut out, &pb);
            proof {
                assert(self.x@.take(jx + 1).drop_last() =~= self.x@.take(jx as int));
                assert(out@ =~= abcd + points_bytes(self.x@.take(jx + 1)));
            }
            jx = jx + 1;
        }
        proof {
            assert(self.x@.take(xlen as int) =~= self.x@);
        }
        let ghost with_x = abcd + points_bytes(self.x@);
        let ylen = self.y.len();
        let mut jy: usize = 0;
        while jy < ylen
            invariant
                ylen == self.y@.len(),
                jy <= ylen,
                out@ == with_x + points_bytes(self.y@.take(jy as int)),
                forall|q: int| 0 <= q < jy ==> compress_of(#[trigger] self.y@[q]).len() == 32,
            decreases ylen - jy,
        {
            let pb = point_compress(&self.y[jy]);
            extend32(&mut out, &pb);
            proof {
                assert(self.y@.take(jy + 1).drop_last() =~= self.y@.take(jy as int));
                assert(out@ =~= with_x + points_bytes(self.y@.take(jy + 1)));
            }
            jy = jy + 1;
        }
        proof {
            assert(self.y@.take(ylen as int) =~= self.y@);
        }
        let ghost with_y = with_x + points_bytes(self.y@);
        let flen = self.f.len();
        let mut jf: usize = 0;
        while jf < flen
            invariant
                flen == self.f@.len(),
                jf <= flen,
                out@ == with_y + rows_bytes(f_view(self.f@).take(jf as int)),
                forall|q: int, e: int|
                    0 <= q < jf && 0 <= e < self.f@[q]@.len() ==> scalar_bytes_of(
                        #[trigger] self.f@[q]@[e],
                    ).len() == 32,
            decreases flen - jf,
        {
            let row = &self.f[jf];
            let rlen = row.len();
            let ghost row_start = out@;
            let mut i: usize = 0;
            while i < rlen
                invariant
                    rlen == row@.len(),
                    i <= rlen,
                    out@ == row_start + scalars_bytes(row@.take(i as int)),
                    forall|e: int| 0 <= e < i ==> scalar_bytes_of(#[trigger] row@[e]).len() == 32,
                decreases rlen - i,
            {
                let sb = scalar_to_bytes(&row[i]);
                extend32(&mut out, &sb);
                proof {
                    assert(row@.take(i + 1).drop_last() =~= row@.take(i as int));
                    assert(out@ =~= row_start + scalars_bytes(row@.take(i + 1)));
                }
                i = i + 1;
            }
            proof {
                assert(row@.take(rlen as int) =~= row@);
                assert(f_view(self.f@).take(jf + 1).drop_last() =~= f_view(self.f@).take(
                    jf as int,
                ));
                assert(f_view(self.f@).take(jf + 1).last() == row@);
                assert(out@ =~= with_y + rows_bytes(f_view(self.f@).take(jf + 1)));
            }
            jf = jf + 1;
        }
        proof {
            assert(f_view(self.f@).take(flen as int) =~= f_view(self.f@));
        }
        let za = scalar_to_bytes(&self.z_a);
        extend32(&mut out, &za);
        let zc = scalar_to_bytes(&self.z_c);
        extend32(&mut out, &zc);
        let zz = scalar_to_bytes(&self.z);
        extend32(&mut out, &zz);
        proof {
            assert(out@ =~= proof_bytes(*self));
        }
        out
    }

    /// Parses a proof from its canonical byte encoding for the given
    /// parameters.
    ///
    /// Succeeds exactly on [`decodable`] byte strings: the right length for
    /// the parameters, every point chunk a canonical compression, every
    /// scalar chunk a canonical encoding. A decoded proof is well-shaped and
    /// re-encodes to exactly the input bytes.
    #[verifier::rlimit(100)]
    #[verifier::spinoff_prover]
    pub fn from_bytes(bytes: &Vec<u8>, params: &Parameters) -> (r: Result<Proof, ProofError>)
        requires
            params.wf(),
        ensures
            r is Ok <==> decodable(bytes@, params.n as nat, params.m as nat),
            r is Ok ==> r->Ok_0.wf(params.n as nat, params.m as nat),
            r is Ok ==> proof_bytes(r->Ok_0) == bytes@,
            r is Ok ==> chunks32(r->Ok_0),
    {
        let n = params.get_n();
        let m = params.get_m();
        proof {
            crate::lemma_pow_exceeds_exponent(n as nat, m as nat);
            crate::lemma_prod_le_pow(n as nat, m as nat);
        }
        let m64 = m as u64;
        let n64 = n as u64;
        proof {
            assert((m as int) * ((n as int) - 1) <= (m as int) * (n as int)) by (nonlinear_arith)
                requires m >= 0, n >= 1;
            assert(0 <= (m as int) * ((n as int) - 1)) by (nonlinear_arith)
                requires m >= 0, n >= 1;
        }
        let chunks: u64 = 4 + 2 * m64 + m64 * (n64 - 1) + 3;
        let total: u64 = 32 * chunks;
        if bytes.len() as u64 != total {
            proof {
                assert(bytes@.len() != 32 * (7 + 2 * (m as int) + (m as int) * ((n as int)
                    - 1)));
            }
            return Err(ProofError::InvalidParameter);
        }
        let blen = bytes.len();
        proof {
            assert(blen as int == 224 + 64 * (m as int) + 32 * ((m as int) * ((n as int) - 1)));
        }
        let a_pt = match point_decompress(slice_subrange(bytes.as_slice(), 0, 32)) {
            Some(p) => p,
            None => {
                proof {
                    assert(chunk(bytes@, 0) =~= bytes@.subrange(0, 32));
                    if decodable(bytes@, n as nat, m as nat) {
                        let p0 = choose|p: RistrettoPoint| compress_of(p) == chunk(bytes@, 0);
                        assert(compress_of(p0) != bytes@.subrange(0, 32));
                    }
                }
                return Err(ProofError::InvalidParameter);
            },
        };
        let b_pt = match point_decompress(slice_subrange(bytes.as_slice(), 32, 64)) {
            Some(p) => p,
            None => {
                proof {
                    assert(chunk(bytes@, 1) =~= bytes@.subrange(32, 64));
                    if decodable(bytes@, n as nat, m as nat) {
                        let p0 = choose|p: RistrettoPoint| compress_of(p) == chunk(bytes@, 1);
                        assert(compress_of(p0) != bytes@.subrange(32, 64));
                    }
                }
                return Err(ProofError::InvalidParameter);
            },
        };
        let c_pt = match point_decompress(slice_subrange(bytes.as_slice(), 64, 96)) {
            Some(p) => p,
            None => {
                proof {
                    assert(chunk(bytes@, 2) =~= bytes@.subrange(64, 96));
                    if decodable(bytes@, n as nat, m as nat) {
                        let p0 = choose|p: RistrettoPoint| compress_of(p) == chunk(bytes@, 2);
                        assert(compress_of(p0) != bytes@.subrange(64, 96));
                    }
                }
                return Err(ProofError::InvalidParameter);
            },
        };
        let d_pt = match point_decompress(slice_subrange(bytes.as_slice(), 96, 128)) {
            Some(p) => p,
            None => {
                proof {
                    assert(chunk(bytes@, 3) =~= bytes@.subrange(96, 128));
                    if decodable(bytes@, n as nat, m as nat) {
                        let p0 = choose|p: RistrettoPoint| compress_of(p) == chunk(bytes@, 3);
                        assert(compress_of(p0) != bytes@.subrange(96, 128));
                    }
                }
                return Err(ProofError::InvalidParameter);
            },
        };
        let ghost abcd = compress_of(a_pt) + compress_of(b_pt) + compress_of(c_pt) + compress_of(
            d_pt,
        );
        proof {
            assert(abcd =~= bytes@.subrange(0, 128));
            assert(chunk(bytes@, 0) =~= bytes@.subrange(0, 32));
            assert(chunk(bytes@, 1) =~= bytes@.subrange(32, 64));
            assert(chunk(bytes@, 2) =~= bytes@.subrange(64, 96));
            assert(chunk(bytes@, 3) =~= bytes@.subrange(96, 128));
            assert(exists|p: RistrettoPoint| compress_of(p) == chunk(bytes@, 0));
            assert(exists|p: RistrettoPoint| compress_of(p) == chunk(bytes@, 1));
            assert(exists|p: RistrettoPoint| compress_of(p) == chunk(bytes@, 2));
            assert(exists|p: RistrettoPoint| compress_of(p) == chunk(bytes@, 3));
        }
        let mut off: usize = 128;
        let m_us = m as usize;
        let mut xs: Vec<RistrettoPoint> = Vec::new();
        let mut jx: usize = 0;
        while jx < m_us
            invariant
                jx <= m_us,
                m_us == m as nat,
                n == params.n,
                m == params.m,
                blen == bytes@.len(),
                off == 128 + 32 * jx,
                off + 32 * (m_us - jx) <= blen,
                xs@.len() == jx as nat,
                points_bytes(xs@) == bytes@.subrange(128, off as int),
                forall|q: int| 0 <= q < jx ==> compress_of(#[trigger] xs@[q]).len() == 32,
                forall|c: int|
                    4 <= c < 4 + jx ==> exists|p: RistrettoPoint|
                        compress_of(p) == #[trigger] chunk(bytes@, c),
            decreases m_us - jx,
        {
            proof {
                assert(chunk(bytes@, 4 + jx as int) =~= bytes@.subrange(
                    off as int,
                    off as int + 32,
                ));
            }
            let pt = match point_decompress(slice_subrange(bytes.as_slice(), off, off + 32)) {
                Some(p) => p,
                None => {
                    proof {
                        if decodable(bytes@, n as nat, m as nat) {
                            let p0 = choose|p: RistrettoPoint|
                                compress_of(p) == chunk(bytes@, 4 + jx as int);
                            assert(compress_of(p0) != bytes@.subrange(
                                off as int,
                                off as int + 32,
                            ));
                        }
                    }
                    return Err(ProofError::InvalidParameter);
                },
            };
            proof {
                assert(xs@.push(pt).drop_last() =~= xs@);
                assert(points_bytes(xs@.push(pt)) =~= bytes@.subrange(128, off + 32));
                assert(exists|p: RistrettoPoint| compress_of(p) == chunk(bytes@, 4 + jx as int));
            }
            xs.push(pt);
            off = off + 32;
            jx = jx + 1;
        }
        let ghost x_end = off as int;
        let mut ys: Vec<RistrettoPoint> = Vec::new();
        let mut jy: usize = 0;
        while jy < m_us
            invariant
                jy <= m_us,
                m_us == m as nat,
                n == params.n,
                m == params.m,
                blen == bytes@.len(),
                off == 128 + 32 * m_us + 32 * jy,
                x_end == 128 + 32 * m_us,
                off + 32 * (m_us - jy) <= blen,
                ys@.len() == jy as nat,
                points_bytes(ys@) == bytes@.subrange(x_end, off as int),
                forall|q: int| 0 <= q < jy ==> compress_of(#[trigger] ys@[q]).len() == 32,
                forall|c: int|
                    4 + m_us <= c < 4 + m_us + jy ==> exists|p: RistrettoPoint|
                        compress_of(p) == #[trigger] chunk(bytes@, c),
            decreases m_us - jy,
        {
            proof {
                assert(chunk(bytes@, 4 + m_us + jy) =~= bytes@.subrange(
                    off as int,
                    off as int + 32,
                ));
            }
            let pt = match point_decompress(slice_subrange(bytes.as_slice(), off, off + 32)) {
                Some(p) => p,
                None => {
                    proof {
                        if decodable(bytes@, n as nat, m as nat) {
                            let p0 = choose|p: RistrettoPoint|
                                compress_of(p) == chunk(bytes@, 4 + m_us + jy);
                            assert(compress_of(p0) != bytes@.subrange(
                                off as int,
                                off as int + 32,
                            ));
                        }
                    }
                    return Err(ProofError::InvalidParameter);
                },
            };
            proof {
                assert(ys@.push(pt).drop_last() =~= ys@);
                assert(points_bytes(ys@.push(pt)) =~= bytes@.subrange(x_end, off + 32));
                assert(exists|p: RistrettoPoint| compress_of(p) == chunk(bytes@, 4 + m_us + jy));
            }
            ys.push(pt);
            off = off + 32;
            jy = jy + 1;
        }
        let ghost y_end = off as int;
        let cols = (n - 1) as usize;
        let mut fs: Vec<Vec<Scalar>> = Vec::new();
        let mut jf: usize = 0;
        while jf < m_us
            invariant
                jf <= m_us,
                n >= 2,
                n == params.n,
                m == params.m,
                cols == n as nat - 1,
                blen == bytes@.len(),
                y_end == 128 + 64 * m_us,
                off == 128 + 64 * m_us + 32 * (jf * cols),
                off + 32 * ((m_us - jf) * cols) + 96 == blen,
                0 <= ((m_us - jf) as int) * (cols as int),
                m_us == m as nat,
                fs@.len() == jf as nat,
                forall|q: int| 0 <= q < jf ==> (#[trigger] fs@[q])@.len() == cols as nat,
                forall|q: int, e: int|
                    0 <= q < jf && 0 <= e < fs@[q]@.len() ==> scalar_bytes_of(
                        #[trigger] fs@[q]@[e],
                    ).len() == 32,
                rows_bytes(f_view(fs@)) == bytes@.subrange(y_end, off as int),
                forall|c: int|
                    4 + 2 * m_us <= c < 4 + 2 * m_us + jf * cols ==> exists|s: Scalar|
                        scalar_bytes_of(s) == #[trigger] chunk(bytes@, c),
            decreases m_us - jf,
        {
            let ghost row_start = off as int;
            let mut row: Vec<Scalar> = Vec::new();
            let mut i: usize = 0;
            proof {
                assert((m_us - jf) * cols == cols + (m_us - (jf + 1)) * cols) by (nonlinear_arith)
                    requires jf < m_us;
                assert(0 <= ((m_us - (jf + 1)) as int) * (cols as int)) by (nonlinear_arith)
                    requires jf + 1 <= m_us, 0 <= cols;
            }
            while i < cols
                invariant
                    i <= cols,
                    m_us == m as nat,
                    n == params.n,
                    m == params.m,
                    n >= 2,
                    cols == n as nat - 1,
                    blen == bytes@.len(),
                    0 <= row_start,
                    row_start == 128 + 64 * m_us + 32 * (jf * cols),
                    0 <= (jf as int) * (cols as int),
                    off == row_start + 32 * i,
                    off + 32 * (cols - i) + 32 * ((m_us - (jf + 1)) * cols) + 96 == blen,
                    0 <= ((m_us - (jf + 1)) as int) * (cols as int),
                    jf < m_us,
                    row@.len() == i as nat,
                    scalars_bytes(row@) == bytes@.subrange(row_start, off as int),
                    forall|e: int| 0 <= e < i ==> scalar_bytes_of(#[trigger] row@[e]).len() == 32,
                    forall|c: int|
                        4 + 2 * m_us <= c < 4 + 2 * m_us + jf * cols + i ==> exists|s: Scalar|
                            scalar_bytes_of(s) == #[trigger] chunk(bytes@, c),
                decreases cols - i,
            {
                proof {
                    assert(chunk(bytes@, 4 + 2 * m_us + jf * cols + i) =~= bytes@.subrange(
                        off as int,
                        off as int + 32,
                    ));
                }
                let sc = match scalar_from_canonical_bytes(
                    slice_subrange(bytes.as_slice(), off, off + 32),
                ) {
                    Some(s) => s,
                    None => {
                        proof {
                            if decodable(bytes@, n as nat, m as nat) {
                                assert((jf as int) * (cols as int) + i < (m as int) * (
                                cols as int)) by (nonlinear_arith)
                                    requires jf < m_us, i < cols, m_us == m as nat, 0 <= cols;
                                let s0 = choose|s: Scalar|
                                    scalar_bytes_of(s) == chunk(
                                        bytes@,
                                        4 + 2 * m_us + jf * cols + i,
                                    );
                                assert(scalar_bytes_of(s0) == bytes@.subrange(
                                    off as int,
                                    off as int + 32,
                                ));
                            }
                        }
                        return Err(ProofError::InvalidParameter);
                    },
                };
                proof {
                    assert((jf as int) * (cols as int) + i < (m as int) * (cols as int))
                        by (nonlinear_arith)
                        requires jf < m_us, i < cols, m_us == m as nat, 0 <= cols;
                    assert(exists|s: Scalar|
                        scalar_bytes_of(s) == chunk(bytes@, 4 + 2 * m_us + jf * cols + i));
                    assert(row@.push(sc).drop_last() =~= row@);
                    assert(scalar_bytes_of(sc) == bytes@.subrange(off as int, off as int + 32));
                    assert(scalars_bytes(row@.push(sc)) == scalars_bytes(row@) + scalar_bytes_of(
                        sc,
                    ));
                    assert(off as int + 32 <= blen as int);
                    assert(scalars_bytes(row@.push(sc)) =~= bytes@.subrange(
                        row_start,
                        off as int + 32,
                    ));
                }
                row.push(sc);
                off = off + 32;
                i = i + 1;
            }
            proof {
                assert(f_view(fs@.push(row)).drop_last() =~= f_view(fs@));
                assert(f_view(fs@.push(row)).last() == row@);
                assert(rows_bytes(f_view(fs@.push(row))) =~= bytes@.subrange(y_end, off as int));
                assert(jf * cols + cols == (jf + 1) * cols) by (nonlinear_arith);
            }
            fs.push(row);
            jf = jf + 1;
        }
        let ghost f_end = off as int;
        let ghost c0 = 4 + 2 * (m as int) + (m as int) * (cols as int);
        proof {
            assert(f_end == 32 * c0);
            assert(chunk(bytes@, c0) =~= bytes@.subrange(f_end, f_end + 32));
            assert(chunk(bytes@, c0 + 1) =~= bytes@.subrange(f_end + 32, f_end + 64));
            assert(chunk(bytes@, c0 + 2) =~= bytes@.subrange(f_end + 64, f_end + 96));
        }
        let z_a = match scalar_from_canonical_bytes(slice_subrange(bytes.as_slice(), off, off + 32)) {
            Some(s) => s,
            None => {
                proof {
                    if decodable(bytes@, n as nat, m as nat) {
                        let s0 = choose|s: Scalar| scalar_bytes_of(s) == chunk(bytes@, c0);
                        assert(scalar_bytes_of(s0) == bytes@.subrange(f_end, f_end + 32));
                    }
                }
                return Err(ProofError::InvalidParameter);
            },
        };
        let z_c = match scalar_from_canonical_bytes(
            slice_subrange(bytes.as_slice(), off + 32, off + 64),
        ) {
            Some(s) => s,
            None => {
                proof {
                    if decodable(bytes@, n as nat, m as nat) {
                        let s0 = choose|s: Scalar| scalar_bytes_of(s) == chunk(bytes@, c0 + 1);
                        assert(scalar_bytes_of(s0) == bytes@.subrange(f_end + 32, f_end + 64));
                    }
                }
                return Err(ProofError::InvalidParameter);
            },
        };
        let z = match scalar_from_canonical_bytes(
            slice_subrange(bytes.as_slice(), off + 64, off + 96),
        ) {
            Some(s) => s,
            None => {
                proof {
                    if decodable(bytes@, n as nat, m as nat) {
                        let s0 = choose|s: Scalar| scalar_bytes_of(s) == chunk(bytes@, c0 + 2);
                        assert(scalar_bytes_of(s0) == bytes@.subrange(f_end + 64, f_end + 96));
                    }
                }
                return Err(ProofError::InvalidParameter);
            },
        };
        let proof_val = Proof { a: a_pt, b: b_pt, c: c_pt, d: d_pt, x: xs, y: ys, f: fs, z_a, z_c, z };
        proof {
            assert(proof_bytes(proof_val) =~= bytes@);
            assert(exists|s: Scalar| scalar_bytes_of(s) == chunk(bytes@, c0));
            assert(exists|s: Scalar| scalar_bytes_of(s) == chunk(bytes@, c0 + 1));
            assert(exists|s: Scalar| scalar_bytes_of(s) == chunk(bytes@, c0 + 2));
            assert forall|c: int| 0 <= c < 4 + 2 * (m as int) implies exists|p: RistrettoPoint|
                compress_of(p) == #[trigger] chunk(bytes@, c) by {
                if 4 <= c < 4 + m as int {
                    assert(exists|p: RistrettoPoint| compress_of(p) == chunk(bytes@, c));
                }
            }
            assert forall|c: int| 4 + 2 * (m as int) <= c < c0 + 3 implies exists|s: Scalar|
                scalar_bytes_of(s) == #[trigger] chunk(bytes@, c) by {
                if c < c0 {
                    assert(exists|s: Scalar| scalar_bytes_of(s) == chunk(bytes@, c));
                }
            }
            assert(decodable(bytes@, n as nat, m as nat));
        }
        Ok(proof_val)
    }
}

} // verus!
