//! Elements of the Ristretto group, modelled by their discrete logarithms.
//!
//! The Ristretto group is cyclic of prime order `ℓ`, generated by its
//! basepoint `B`. A point is therefore exactly one residue `x` modulo `ℓ`
//! (the point `x·B`), and the group law is addition of residues. Points are
//! held as their canonical 32-byte compressed encodings.

use vstd::prelude::*;
use crate::scalar::{Scalar, group_order};
use curve25519_dalek::ristretto::{CompressedRistretto, RistrettoPoint};
use curve25519_dalek::scalar::Scalar as DalekScalar;
use curve25519_dalek::traits::{Identity, VartimeMultiscalarMul};
use subtle::ConditionallySelectable;

verus! {

/// The discrete logarithm, to the basepoint, of the point whose compressed
/// encoding is `enc`.
pub uninterp spec fn point_dlog(enc: Seq<u8>) -> int;

/// The compressed encoding (`RistrettoPoint::compress`) of the point `x·B`.
pub uninterp spec fn encoding_of(x: int) -> Seq<u8>;

/// `b` is the compressed encoding of a point.
pub open spec fn is_point_encoding(b: Seq<u8>) -> bool {
    b == encoding_of(point_dlog(b) % group_order())
}

/// A point of the Ristretto group, held as its canonical compressed encoding.
/// Every constructor stores what `compress` or a successful `decompress` gave,
/// so the encoding is always the canonical one of its point.
pub struct Point {
    bytes: [u8; 32],
}

impl View for Point {
    type V = int;

    /// The discrete logarithm of the point, in `[0, ℓ)`.
    closed spec fn view(&self) -> int {
        point_dlog(self.bytes@) % group_order()
    }
}

impl Point {
    #[verifier::type_invariant]
    closed spec fn canonical(self) -> bool {
        self.bytes@ == encoding_of(point_dlog(self.bytes@) % group_order())
    }

    /// The compressed encoding; a function of the point alone.
    pub fn to_bytes(&self) -> (r: [u8; 32])
        ensures
            r@ == encoding_of(self@),
            is_point_encoding(r@),
            point_dlog(r@) % group_order() == self@,
    {
        proof {
            use_type_invariant(self);
        }
        self.bytes
    }

    /// Reads a compressed encoding; `None` when `bytes` encodes no point.
    pub fn from_bytes(bytes: [u8; 32]) -> (r: Option<Point>)
        ensures
            r is Some <==> bytes@ == encoding_of(point_dlog(bytes@) % group_order()),
            r matches Some(p) ==> p@ == point_dlog(bytes@) % group_order(),
    {
        decompress(bytes)
    }

    pub fn clone(&self) -> (r: Point)
        ensures
            r@ == self@,
    {
        proof {
            use_type_invariant(self);
        }
        Point { bytes: self.bytes }
    }
}

/// Relies on `CompressedRistretto::decompress`, which accepts exactly the
/// canonical encodings of points (those that `compress` gives).
#[verifier::external_body]
fn decompress(bytes: [u8; 32]) -> (r: Option<Point>)
    ensures
        r is Some <==> bytes@ == encoding_of(point_dlog(bytes@) % group_order()),
        r matches Some(p) ==> p@ == point_dlog(bytes@) % group_order(),
{
    CompressedRistretto(bytes).decompress().map(|_| Point { bytes })
}

/// Relies on `RistrettoPoint::identity`: the neutral element.
#[verifier::external_body]
pub(crate) fn identity() -> (r: Point)
    ensures
        r@ == 0,
{
    Point { bytes: RistrettoPoint::identity().compress().to_bytes() }
}

/// Relies on `RistrettoPoint` addition: the group law.
#[verifier::external_body]
pub(crate) fn add(a: &Point, b: &Point) -> (r: Point)
    ensures
        r@ == (a@ + b@) % group_order(),
{
    let x = CompressedRistretto(a.bytes).decompress().unwrap();
    let y = CompressedRistretto(b.bytes).decompress().unwrap();
    Point { bytes: (x + y).compress().to_bytes() }
}

/// Relies on `RistrettoPoint` subtraction.
#[verifier::external_body]
pub(crate) fn sub(a: &Point, b: &Point) -> (r: Point)
    ensures
        r@ == (a@ - b@) % group_order(),
{
    let x = CompressedRistretto(a.bytes).decompress().unwrap();
    let y = CompressedRistretto(b.bytes).decompress().unwrap();
    Point { bytes: (x - y).compress().to_bytes() }
}

/// Relies on `Scalar * RistrettoPoint`.
#[verifier::external_body]
pub(crate) fn mul(s: &Scalar, p: &Point) -> (r: Point)
    ensures
        r@ == (s@ * p@) % group_order(),
{
    let k = DalekScalar::from_bytes_mod_order(s.to_bytes());
    let x = CompressedRistretto(p.bytes).decompress().unwrap();
    Point { bytes: (k * x).compress().to_bytes() }
}

/// Relies on `RistrettoPoint::vartime_multiscalar_mul` with two terms:
/// `a1·p1 + a2·p2`.
#[verifier::external_body]
pub(crate) fn multiscalar2(a1: &Scalar, p1: &Point, a2: &Scalar, p2: &Point) -> (r: Point)
    ensures
        r@ == (a1@ * p1@ + a2@ * p2@) % group_order(),
{
    let k1 = DalekScalar::from_bytes_mod_order(a1.to_bytes());
    let k2 = DalekScalar::from_bytes_mod_order(a2.to_bytes());
    let x1 = CompressedRistretto(p1.bytes).decompress().unwrap();
    let x2 = CompressedRistretto(p2.bytes).decompress().unwrap();
    let x = RistrettoPoint::vartime_multiscalar_mul(&[k1, k2], &[x1, x2]);
    Point { bytes: x.compress().to_bytes() }
}

/// Relies on `ConditionallySelectable::conditional_assign` of
/// `RistrettoPoint`: takes `src` when `mask` is one, keeps `dst` when it is
/// zero.
#[verifier::external_body]
pub(crate) fn conditional_assign(dst: &mut Point, src: &Point, mask: u8)
    requires
        mask <= 1,
    ensures
        final(dst)@ == if mask == 1 { src@ } else { old(dst)@ },
{
    let mut x = CompressedRistretto(dst.bytes).decompress().unwrap();
    x.conditional_assign(&CompressedRistretto(src.bytes).decompress().unwrap(), mask.into());
    dst.bytes = x.compress().to_bytes();
}

} // verus!
