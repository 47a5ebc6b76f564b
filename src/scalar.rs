//! Residues modulo the order of the Ristretto group.

use vstd::prelude::*;
use curve25519_dalek::scalar::Scalar as DalekScalar;
use rand::rngs::OsRng;
use sha2::Sha512;
use subtle::ConditionallySelectable;

verus! {

/// The prime order `ℓ = 2^252 + 27742317777372353535851937790883648493` of
/// the Ristretto group.
pub open spec fn group_order() -> int {
    85070591730234615865843651857942052864int * 85070591730234615865843651857942052864int
        + 27742317777372353535851937790883648493int
}

/// The little-endian integer that `b` spells.
pub open spec fn le_value(b: Seq<u8>) -> nat
    decreases b.len(),
{
    if b.len() == 0 {
        0
    } else {
        b[0] as nat + 256 * le_value(b.subrange(1, b.len() as int))
    }
}

/// The residue that SHA-512 of `input`, read as a little-endian integer and
/// reduced modulo `ℓ`, gives.
pub uninterp spec fn hash_scalar_of(input: Seq<u8>) -> int;

/// `rand`'s generator backed by the operating system, from which the provers
/// draw their scalars.
#[verifier::external_type_specification]
#[verifier::external_body]
pub struct ExOsRng(OsRng);

/// An integer modulo `ℓ`, held as its canonical 32-byte little-endian encoding.
pub struct Scalar {
    bytes: [u8; 32],
}

impl View for Scalar {
    type V = int;

    closed spec fn view(&self) -> int {
        le_value(self.bytes@) as int % group_order()
    }
}

impl Scalar {
    #[verifier::type_invariant]
    closed spec fn canonical(self) -> bool {
        le_value(self.bytes@) < group_order()
    }

    /// The value is a residue in `[0, ℓ)`.
    pub proof fn lemma_range(&self)
        ensures
            0 <= self@ < group_order(),
    {
    }

    /// The canonical encoding.
    pub fn to_bytes(&self) -> (r: [u8; 32])
        ensures
            le_value(r@) == self@,
    {
        proof {
            use_type_invariant(self);
            vstd::arithmetic::div_mod::lemma_small_mod(le_value(self.bytes@), group_order() as nat);
        }
        self.bytes
    }

    /// Reads a canonical encoding; `None` when `bytes` spells `ℓ` or more.
    pub fn from_bytes(bytes: [u8; 32]) -> (r: Option<Scalar>)
        ensures
            r is Some <==> le_value(bytes@) < group_order(),
            r matches Some(s) ==> s@ == le_value(bytes@),
    {
        from_canonical(bytes)
    }

    /// The residue of a 64-bit integer.
    pub fn from_u64(v: u64) -> (r: Scalar)
        ensures
            r@ == v,
    {
        scalar_from_u64(v)
    }

    pub fn clone(&self) -> (r: Scalar)
        ensures
            r@ == self@,
    {
        proof {
            use_type_invariant(self);
        }
        Scalar { bytes: self.bytes }
    }
}

/// Relies on `Scalar::from_canonical_bytes`: accepts exactly the encodings of
/// integers below `ℓ`, and keeps their value.
#[verifier::external_body]
fn from_canonical(bytes: [u8; 32]) -> (r: Option<Scalar>)
    ensures
        r is Some <==> le_value(bytes@) < group_order(),
        r matches Some(s) ==> s@ == le_value(bytes@),
{
    let s: Option<DalekScalar> = DalekScalar::from_canonical_bytes(bytes).into();
    s.map(|x| Scalar { bytes: x.to_bytes() })
}

/// Relies on `Scalar::from(u64)`: the residue of `v`.
#[verifier::external_body]
fn scalar_from_u64(v: u64) -> (r: Scalar)
    ensures
        r@ == v,
{
    Scalar { bytes: DalekScalar::from(v).to_bytes() }
}

/// Relies on `Scalar::ZERO`.
#[verifier::external_body]
pub(crate) fn zero() -> (r: Scalar)
    ensures
        r@ == 0,
{
    Scalar { bytes: DalekScalar::ZERO.to_bytes() }
}

/// Relies on `Scalar` addition modulo `ℓ`.
#[verifier::external_body]
pub(crate) fn add(a: &Scalar, b: &Scalar) -> (r: Scalar)
    ensures
        r@ == (a@ + b@) % group_order(),
{
    let x = DalekScalar::from_bytes_mod_order(a.bytes) + DalekScalar::from_bytes_mod_order(b.bytes);
    Scalar { bytes: x.to_bytes() }
}

/// Relies on `Scalar`'s `==`: equal values.
#[verifier::external_body]
pub(crate) fn equal(a: &Scalar, b: &Scalar) -> (r: bool)
    ensures
        r == (a@ == b@),
{
    DalekScalar::from_bytes_mod_order(a.bytes) == DalekScalar::from_bytes_mod_order(b.bytes)
}

/// Relies on `Scalar` multiplication modulo `ℓ`.
#[verifier::external_body]
pub(crate) fn mul(a: &Scalar, b: &Scalar) -> (r: Scalar)
    ensures
        r@ == (a@ * b@) % group_order(),
{
    let x = DalekScalar::from_bytes_mod_order(a.bytes) * DalekScalar::from_bytes_mod_order(b.bytes);
    Scalar { bytes: x.to_bytes() }
}

/// Relies on `Scalar` negation modulo `ℓ`.
#[verifier::external_body]
pub(crate) fn neg(a: &Scalar) -> (r: Scalar)
    ensures
        r@ == (-a@) % group_order(),
{
    let x = -DalekScalar::from_bytes_mod_order(a.bytes);
    Scalar { bytes: x.to_bytes() }
}

/// Relies on `Scalar::invert`, which is defined for nonzero scalars: the
/// product with the input is one.
#[verifier::external_body]
pub(crate) fn invert(a: &Scalar) -> (r: Scalar)
    requires
        a@ != 0,
    ensures
        (r@ * a@) % group_order() == 1,
{
    let x = DalekScalar::from_bytes_mod_order(a.bytes).invert();
    Scalar { bytes: x.to_bytes() }
}

/// Relies on `Scalar::hash_from_bytes::<Sha512>`: the digest reduced modulo `ℓ`.
#[verifier::external_body]
pub(crate) fn hash_to_scalar(input: &[u8]) -> (r: Scalar)
    ensures
        r@ == hash_scalar_of(input@),
{
    Scalar { bytes: DalekScalar::hash_from_bytes::<Sha512>(input).to_bytes() }
}

/// Relies on `Scalar::random` with the operating system's generator: some
/// scalar, nothing more is known.
#[verifier::external_body]
pub(crate) fn random(rng: &mut OsRng) -> (r: Scalar)
{
    Scalar { bytes: DalekScalar::random(rng).to_bytes() }
}

/// Relies on `ConditionallySelectable::conditional_assign` of `Scalar`: takes
/// `src` when `mask` is one, keeps `dst` when it is zero.
#[verifier::external_body]
pub(crate) fn conditional_assign(dst: &mut Scalar, src: &Scalar, mask: u8)
    requires
        mask <= 1,
    ensures
        final(dst)@ == if mask == 1 { src@ } else { old(dst)@ },
{
    let mut x = DalekScalar::from_bytes_mod_order(dst.bytes);
    x.conditional_assign(&DalekScalar::from_bytes_mod_order(src.bytes), mask.into());
    dst.bytes = x.to_bytes();
}

} // verus!
