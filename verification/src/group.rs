//! The Ristretto group and its scalar field, as provided by `curve25519-dalek`.
//!
//! A `Scalar` is modelled by the integer in `[0, ℓ)` it holds, and a `RistrettoPoint` by
//! its discrete logarithm with respect to the Ristretto basepoint. The group has prime
//! order ℓ, so this describes every point exactly: addition of points adds their
//! logarithms and multiplication by a scalar multiplies them, modulo ℓ.
use vstd::prelude::*;
use curve25519_dalek::ristretto::{CompressedRistretto, RistrettoPoint};
use curve25519_dalek::scalar::Scalar;
use curve25519_dalek::traits::{Identity, MultiscalarMul, VartimeMultiscalarMul};
use rand::rngs::OsRng;
use sha2::{Digest, Sha512};
use crate::algebra::{dot, group_order, reduce};

verus! {

#[verifier::external_type_specification]
#[verifier::external_body]
pub struct ExScalar(Scalar);

#[verifier::external_type_specification]
#[verifier::external_body]
pub struct ExRistrettoPoint(RistrettoPoint);

#[verifier::external_type_specification]
#[verifier::external_body]
pub struct ExCompressedRistretto(CompressedRistretto);

/// The integer in `[0, ℓ)` that a `Scalar` stands for (the value of its canonical
/// little-endian bytes).
pub uninterp spec fn scalar_value(s: Scalar) -> int;

/// The discrete logarithm in `[0, ℓ)` of a point with respect to the Ristretto basepoint.
pub uninterp spec fn point_dlog(p: RistrettoPoint) -> int;

/// The 32 bytes that a `CompressedRistretto` holds.
pub uninterp spec fn compressed_bytes(c: CompressedRistretto) -> Seq<u8>;

/// The canonical 32-byte Ristretto encoding (what `RistrettoPoint::compress` returns) of the
/// point whose discrete logarithm is `dlog`.
pub uninterp spec fn ristretto_encoding(dlog: int) -> Seq<u8>;

/// The discrete logarithm of `RistrettoPoint::from_uniform_bytes(bytes)`.
pub uninterp spec fn ristretto_from_uniform_bytes(bytes: Seq<u8>) -> int;

/// The SHA-512 digest of `msg` (64 bytes).
pub uninterp spec fn sha512_digest(msg: Seq<u8>) -> Seq<u8>;

/// The integer that the bytes `b` encode in little-endian order.
pub open spec fn le_bytes_value(b: Seq<u8>) -> int
    decreases b.len(),
{
    if b.len() == 0 {
        0
    } else {
        b[0] + 256 * le_bytes_value(b.skip(1))
    }
}

/// The `n` little-endian bytes of `v` (its value modulo `256^n`).
pub open spec fn le_encode(v: int, n: nat) -> Seq<u8>
    decreases n,
{
    if n == 0 {
        seq![]
    } else {
        seq![(v % 256) as u8] + le_encode(v / 256, (n - 1) as nat)
    }
}

/// The values of a sequence of scalars.
pub open spec fn scalar_values(s: Seq<Scalar>) -> Seq<int> {
    s.map_values(|x: Scalar| scalar_value(x))
}

/// The discrete logarithms of a sequence of points.
pub open spec fn point_dlogs(p: Seq<RistrettoPoint>) -> Seq<int> {
    p.map_values(|x: RistrettoPoint| point_dlog(x))
}

/// The discrete logarithm of the point that `hash_to_point` derives from `msg`:
/// `from_uniform_bytes(SHA-512(msg))`.
pub open spec fn hashed_point_dlog(msg: Seq<u8>) -> int {
    ristretto_from_uniform_bytes(sha512_digest(msg))
}

// ---------------------------------------------------------------------------
// Scalars
// ---------------------------------------------------------------------------

/// `&Scalar + &Scalar`: addition in the scalar field, that is modulo ℓ.
#[verifier::external_body]
pub(crate) fn scalar_add(a: &Scalar, b: &Scalar) -> (r: Scalar)
    ensures
        scalar_value(r) == reduce(scalar_value(*a) + scalar_value(*b)),
{
    a + b
}

/// `&Scalar * &Scalar`: multiplication in the scalar field, that is modulo ℓ.
#[verifier::external_body]
pub(crate) fn scalar_mul(a: &Scalar, b: &Scalar) -> (r: Scalar)
    ensures
        scalar_value(r) == reduce(scalar_value(*a) * scalar_value(*b)),
{
    a * b
}

/// `Scalar::invert`: the multiplicative inverse modulo ℓ of a nonzero scalar. Its
/// source raises the scalar to the power ℓ - 2, so zero is mapped to zero.
#[verifier::external_body]
pub(crate) fn scalar_invert(a: &Scalar) -> (r: Scalar)
    ensures
        0 <= scalar_value(r) < group_order(),
        reduce(scalar_value(*a)) != 0 ==> reduce(scalar_value(*a) * scalar_value(r)) == 1,
        reduce(scalar_value(*a)) == 0 ==> scalar_value(r) == 0,
{
    a.invert()
}

/// `Scalar::from(u64)`: the scalar with the given value.
#[verifier::external_body]
pub(crate) fn scalar_from_u64(x: u64) -> (r: Scalar)
    ensures
        scalar_value(r) == x,
{
    Scalar::from(x)
}

/// `Scalar::as_bytes`: the canonical 32-byte little-endian encoding of the scalar's value.
pub assume_specification[ Scalar::as_bytes ](s: &Scalar) -> (r: &[u8; 32])
    ensures
        r@ == le_encode(scalar_value(*s), 32),
;

/// `Scalar == Scalar`: equality of the canonical encodings, that is of the values.
#[verifier::external_body]
pub(crate) fn scalar_eq(a: &Scalar, b: &Scalar) -> (r: bool)
    ensures
        r == (scalar_value(*a) == scalar_value(*b)),
{
    a == b
}

/// `Scalar::from_bytes_mod_order_wide`: a 512-bit little-endian integer reduced modulo ℓ.
pub assume_specification[ Scalar::from_bytes_mod_order_wide ](input: &[u8; 64]) -> (r: Scalar)
    ensures
        scalar_value(r) == reduce(le_bytes_value(input@)),
;

/// `Scalar::random` with the operating system's random number generator. Which scalar
/// it returns depends on chance alone; like every scalar it is reduced, so its value
/// lies in `[0, ℓ)`.
#[verifier::external_body]
pub(crate) fn scalar_random() -> (r: Scalar)
    ensures
        0 <= scalar_value(r) < group_order(),
{
    Scalar::random(&mut OsRng)
}

// ---------------------------------------------------------------------------
// Points
// ---------------------------------------------------------------------------

/// `&RistrettoPoint + &RistrettoPoint`: the group operation.
#[verifier::external_body]
pub(crate) fn point_add(a: &RistrettoPoint, b: &RistrettoPoint) -> (r: RistrettoPoint)
    ensures
        point_dlog(r) == reduce(point_dlog(*a) + point_dlog(*b)),
{
    a + b
}

/// `&Scalar * &RistrettoPoint`: scalar multiplication.
#[verifier::external_body]
pub(crate) fn point_mul(s: &Scalar, p: &RistrettoPoint) -> (r: RistrettoPoint)
    ensures
        point_dlog(r) == reduce(scalar_value(*s) * point_dlog(*p)),
{
    s * p
}

/// `RistrettoPoint::multiscalar_mul` (constant time): `Σ_i scalars[i]·points[i]`. Its
/// source asserts that the two inputs have the same length.
#[verifier::external_body]
pub(crate) fn point_multiscalar_mul(scalars: &[Scalar], points: &[RistrettoPoint]) -> (r: RistrettoPoint)
    requires
        scalars@.len() == points@.len(),
    ensures
        point_dlog(r) == reduce(dot(scalar_values(scalars@), point_dlogs(points@))),
{
    RistrettoPoint::multiscalar_mul(scalars, points)
}

/// `RistrettoPoint::vartime_multiscalar_mul`: `Σ_i scalars[i]·points[i]`, in time that
/// depends on the inputs (for public values only). Its source asserts that the two inputs
/// have the same length.
#[verifier::external_body]
pub(crate) fn point_vartime_multiscalar_mul(scalars: &[Scalar], points: &[RistrettoPoint]) -> (r: RistrettoPoint)
    requires
        scalars@.len() == points@.len(),
    ensures
        point_dlog(r) == reduce(dot(scalar_values(scalars@), point_dlogs(points@))),
{
    RistrettoPoint::vartime_multiscalar_mul(scalars, points)
}

/// `RistrettoPoint::identity()`: the neutral element.
#[verifier::external_body]
pub(crate) fn point_identity() -> (r: RistrettoPoint)
    ensures
        point_dlog(r) == 0,
{
    RistrettoPoint::identity()
}

/// `RistrettoPoint == RistrettoPoint`: equality of group elements.
#[verifier::external_body]
pub(crate) fn point_eq(a: &RistrettoPoint, b: &RistrettoPoint) -> (r: bool)
    ensures
        r == (point_dlog(*a) == point_dlog(*b)),
{
    a == b
}

/// `RistrettoPoint::clone`: the type is `Copy`, and its clone is the same point.
pub assume_specification[ <RistrettoPoint as Clone>::clone ](p: &RistrettoPoint) -> (r: RistrettoPoint)
    ensures
        r == *p,
;

/// `Scalar::clone`: the type is `Copy`, and its clone is the same scalar.
pub assume_specification[ <Scalar as Clone>::clone ](s: &Scalar) -> (r: Scalar)
    ensures
        r == *s,
;

/// `RistrettoPoint::compress`: the canonical encoding of the point.
pub assume_specification[ RistrettoPoint::compress ](p: &RistrettoPoint) -> (c: CompressedRistretto)
    ensures
        compressed_bytes(c) == ristretto_encoding(point_dlog(*p)),
;

/// `CompressedRistretto::as_bytes`: the bytes of the encoding.
pub assume_specification[ CompressedRistretto::as_bytes ](c: &CompressedRistretto) -> (r: &[u8; 32])
    ensures
        r@ == compressed_bytes(*c),
;

/// `RistrettoPoint::from_uniform_bytes`: the Elligator-based map from 64 bytes to a point.
/// Like that of every point, its discrete logarithm lies in `[0, ℓ)`.
pub assume_specification[ RistrettoPoint::from_uniform_bytes ](bytes: &[u8; 64]) -> (r: RistrettoPoint)
    ensures
        point_dlog(r) == ristretto_from_uniform_bytes(bytes@),
        0 <= point_dlog(r) < group_order(),
;

/// `Sha512::digest`: the SHA-512 digest of `msg`, as an array.
#[verifier::external_body]
pub(crate) fn sha512(msg: &[u8]) -> (r: [u8; 64])
    ensures
        r@ == sha512_digest(msg@),
{
    Sha512::digest(msg).into()
}

} // verus!
