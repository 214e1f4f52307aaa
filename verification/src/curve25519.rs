//! Curve25519: scalars modulo the group order, Montgomery u-coordinates and
//! Edwards points.

use crate::encoding::le_value;
use curve25519_dalek::edwards::CompressedEdwardsY;
use rand::rngs::StdRng;
use vstd::prelude::*;

verus! {

/// The order of the prime-order subgroup, 2^252 + 27742317777372353535851937790883648493.
pub open spec fn group_order() -> nat {
    0x1000000000000000000000000000000014def9dea2f79cd65812631a5cf5d3ednat
}

/// An integer modulo the group order, held as the 32 little-endian bytes of
/// its canonical representative.
#[derive(Clone, Copy, Debug)]
pub struct Scalar25519 {
    bytes: [u8; 32],
}

/// The bytes of `s · u`: the u-coordinate that the Montgomery ladder gives for
/// the point with u-coordinate `u` and the scalar `s`.
pub uninterp spec fn montgomery_mul_spec(u: Seq<u8>, s: nat) -> Seq<u8>;

/// The compressed Edwards point with the u-coordinate `u` and the sign bit
/// `sign`, if `u` lies on the curve.
pub uninterp spec fn edwards_lift_spec(u: Seq<u8>, sign: u8) -> Option<Seq<u8>>;

/// Whether 32 bytes decompress to an Edwards point.
pub uninterp spec fn edwards_valid_spec(p: Seq<u8>) -> bool;

/// The compressed form of `s · p` for a compressed Edwards point `p`.
pub uninterp spec fn edwards_mul_spec(p: Seq<u8>, s: nat) -> Seq<u8>;

/// The compressed form of `p + q` for two compressed Edwards points.
pub uninterp spec fn edwards_add_spec(p: Seq<u8>, q: Seq<u8>) -> Seq<u8>;

/// The u-coordinate of a compressed Edwards point.
pub uninterp spec fn edwards_to_montgomery_spec(p: Seq<u8>) -> Seq<u8>;

impl Scalar25519 {
    #[verifier::type_invariant]
    pub closed spec fn inv(self) -> bool {
        le_value(self.bytes@) < group_order()
    }

    /// The canonical representative, below the group order.
    pub closed spec fn value(self) -> nat {
        le_value(self.bytes@)
    }

    /// The canonical 32-byte little-endian encoding.
    pub closed spec fn encoding(self) -> Seq<u8> {
        self.bytes@
    }

    /// The canonical 32-byte little-endian encoding.
    pub fn to_bytes(&self) -> (out: [u8; 32])
        ensures
            out@ == self.encoding(),
    {
        self.bytes
    }

    /// The scalar that 32 little-endian bytes stand for, reduced modulo the
    /// group order.
    pub fn from_bytes_mod_order(bytes: [u8; 32]) -> (s: Scalar25519)
        ensures
            s.value() == le_value(bytes@) % group_order(),
    {
        scalar_reduce(bytes)
    }

    /// The scalar that 32 little-endian bytes stand for, if they stand for a
    /// number below the group order.
    pub fn from_canonical_bytes(bytes: [u8; 32]) -> (s: Option<Scalar25519>)
        ensures
            s.is_some() == (le_value(bytes@) < group_order()),
            s.is_some() ==> s.unwrap().encoding() == bytes@,
    {
        scalar_canonical(bytes)
    }

    /// The product of two scalars.
    pub fn mul(&self, other: &Scalar25519) -> (r: Scalar25519)
        ensures
            r.value() == (self.value() * other.value()) % group_order(),
    {
        scalar_mul(self, other)
    }

    /// The difference of two scalars.
    pub fn sub(&self, other: &Scalar25519) -> (r: Scalar25519)
        ensures
            r.value() == (self.value() - other.value()) % (group_order() as int),
    {
        scalar_sub(self, other)
    }

    /// A scalar drawn from `rng`.
    pub fn random(rng: &mut StdRng) -> (s: Scalar25519)
        ensures
            s.value() < group_order(),
    {
        scalar_random(rng)
    }
}

/// `Scalar::from_bytes_mod_order` of curve25519-dalek: reads 32 bytes as a
/// little-endian integer and reduces it modulo the group order.
#[verifier::external_body]
fn scalar_reduce(bytes: [u8; 32]) -> (s: Scalar25519)
    ensures
        s.value() == le_value(bytes@) % group_order(),
{
    Scalar25519 { bytes: curve25519_dalek::scalar::Scalar::from_bytes_mod_order(bytes).to_bytes() }
}

/// `Scalar::from_canonical_bytes` of curve25519-dalek: the scalar with the
/// given bytes, or `None` when their number is not below the group order.
#[verifier::external_body]
fn scalar_canonical(bytes: [u8; 32]) -> (s: Option<Scalar25519>)
    ensures
        s.is_some() == (le_value(bytes@) < group_order()),
        s.is_some() ==> s.unwrap().encoding() == bytes@,
{
    let scalar = curve25519_dalek::scalar::Scalar::from_canonical_bytes(bytes)?;
    Some(Scalar25519 { bytes: scalar.to_bytes() })
}

/// `Mul` of curve25519-dalek's `Scalar`: the product modulo the group order.
#[verifier::external_body]
fn scalar_mul(a: &Scalar25519, b: &Scalar25519) -> (r: Scalar25519)
    ensures
        r.value() == (a.value() * b.value()) % group_order(),
{
    let x = curve25519_dalek::scalar::Scalar::from_bits(a.bytes);
    let y = curve25519_dalek::scalar::Scalar::from_bits(b.bytes);
    Scalar25519 { bytes: (x * y).to_bytes() }
}

/// `Sub` of curve25519-dalek's `Scalar`: the difference modulo the group
/// order, as its representative between zero and the order.
#[verifier::external_body]
fn scalar_sub(a: &Scalar25519, b: &Scalar25519) -> (r: Scalar25519)
    ensures
        r.value() == (a.value() - b.value()) % (group_order() as int),
{
    let x = curve25519_dalek::scalar::Scalar::from_bits(a.bytes);
    let y = curve25519_dalek::scalar::Scalar::from_bits(b.bytes);
    Scalar25519 { bytes: (x - y).to_bytes() }
}

/// `Scalar::random` of curve25519-dalek: a scalar reduced from 64 bytes that
/// `rng` supplies. Nothing is claimed of which scalar it is, but that it is
/// reduced.
#[verifier::external_body]
fn scalar_random(rng: &mut StdRng) -> (s: Scalar25519)
    ensures
        s.value() < group_order(),
{
    Scalar25519 { bytes: curve25519_dalek::scalar::Scalar::random(rng).to_bytes() }
}

/// The u-coordinate of a point on the Montgomery form of Curve25519 or on
/// its twist, as 32 little-endian bytes.
#[derive(Clone, Copy, Debug)]
pub struct MontgomeryPoint(pub [u8; 32]);

impl View for MontgomeryPoint {
    type V = Seq<u8>;

    open spec fn view(&self) -> Seq<u8> {
        self.0@
    }
}

impl MontgomeryPoint {
    /// The u-coordinate of `scalar · self`.
    pub fn mul(&self, scalar: &Scalar25519) -> (r: MontgomeryPoint)
        ensures
            r@ == montgomery_mul_spec(self@, scalar.value()),
    {
        montgomery_mul(self, scalar)
    }

    /// The Edwards point with this u-coordinate and the sign bit `sign`, or
    /// `None` when the coordinate belongs to the twist.
    pub fn to_edwards(&self, sign: u8) -> (p: Option<EdwardsPoint>)
        requires
            sign <= 1,
        ensures
            match p {
                Some(e) => edwards_lift_spec(self@, sign) == Some(e@),
                None => edwards_lift_spec(self@, sign).is_none(),
            },
    {
        edwards_lift(self, sign)
    }
}

/// `Mul<&Scalar>` for curve25519-dalek's `MontgomeryPoint`: the Montgomery
/// ladder on the u-coordinate.
#[verifier::external_body]
fn montgomery_mul(u: &MontgomeryPoint, s: &Scalar25519) -> (r: MontgomeryPoint)
    ensures
        r@ == montgomery_mul_spec(u@, s.value()),
{
    let point = curve25519_dalek::montgomery::MontgomeryPoint(u.0);
    let scalar = curve25519_dalek::scalar::Scalar::from_bits(s.bytes);
    MontgomeryPoint((&point * &scalar).to_bytes())
}

/// A point of the Edwards form of Curve25519, held compressed.
#[derive(Clone, Copy, Debug)]
pub struct EdwardsPoint {
    bytes: [u8; 32],
}

impl View for EdwardsPoint {
    type V = Seq<u8>;

    closed spec fn view(&self) -> Seq<u8> {
        self.bytes@
    }
}

impl EdwardsPoint {
    #[verifier::type_invariant]
    pub closed spec fn inv(self) -> bool {
        edwards_valid_spec(self.bytes@)
    }

    /// The point that 32 bytes compress, if they compress one.
    pub fn from_bytes(bytes: &[u8; 32]) -> (p: Option<EdwardsPoint>)
        ensures
            p.is_some() == edwards_valid_spec(bytes@),
            p.is_some() ==> p.unwrap()@ == bytes@,
    {
        if edwards_decompresses(bytes) {
            Some(EdwardsPoint { bytes: *bytes })
        } else {
            None
        }
    }

    /// The compressed form of this point.
    pub fn to_bytes(&self) -> (out: [u8; 32])
        ensures
            out@ == self@,
    {
        self.bytes
    }

    /// `scalar · self`.
    pub fn mul(&self, scalar: &Scalar25519) -> (r: EdwardsPoint)
        ensures
            r@ == edwards_mul_spec(self@, scalar.value()),
    {
        edwards_mul(self, scalar)
    }

    /// `self + other`.
    pub fn add(&self, other: &EdwardsPoint) -> (r: EdwardsPoint)
        ensures
            r@ == edwards_add_spec(self@, other@),
    {
        edwards_add(self, other)
    }

    /// The u-coordinate of this point on the Montgomery form.
    pub fn to_montgomery(&self) -> (u: MontgomeryPoint)
        ensures
            u@ == edwards_to_montgomery_spec(self@),
    {
        edwards_to_montgomery(self)
    }
}

/// `CompressedEdwardsY::decompress` of curve25519-dalek: whether the bytes
/// are the compressed form of a point.
#[verifier::external_body]
fn edwards_decompresses(bytes: &[u8; 32]) -> (ok: bool)
    ensures
        ok == edwards_valid_spec(bytes@),
{
    CompressedEdwardsY(*bytes).decompress().is_some()
}

/// `MontgomeryPoint::to_edwards` of curve25519-dalek, its result compressed:
/// `None` exactly when the u-coordinate is not on the curve.
#[verifier::external_body]
fn edwards_lift(u: &MontgomeryPoint, sign: u8) -> (p: Option<EdwardsPoint>)
    requires
        sign <= 1,
    ensures
        match p {
            Some(e) => edwards_lift_spec(u@, sign) == Some(e@) && edwards_valid_spec(e@),
            None => edwards_lift_spec(u@, sign).is_none(),
        },
{
    let lifted = curve25519_dalek::montgomery::MontgomeryPoint(u.0).to_edwards(sign)?;
    Some(EdwardsPoint { bytes: lifted.compress().to_bytes() })
}

/// `Mul<Scalar>` for curve25519-dalek's `EdwardsPoint`, on the decompressed
/// point; the product is compressed again and is a point of the curve. The
/// operand decompresses, by the invariant of `EdwardsPoint`.
#[verifier::external_body]
fn edwards_mul(p: &EdwardsPoint, s: &Scalar25519) -> (r: EdwardsPoint)
    ensures
        r@ == edwards_mul_spec(p@, s.value()),
        edwards_valid_spec(r@),
{
    let point = CompressedEdwardsY(p.bytes).decompress().unwrap();
    let scalar = curve25519_dalek::scalar::Scalar::from_bits(s.bytes);
    EdwardsPoint { bytes: (point * scalar).compress().to_bytes() }
}

/// `Add` for curve25519-dalek's `EdwardsPoint`, on the decompressed points;
/// the sum is compressed again and is a point of the curve. The operands
/// decompress, by the invariant of `EdwardsPoint`.
#[verifier::external_body]
fn edwards_add(p: &EdwardsPoint, q: &EdwardsPoint) -> (r: EdwardsPoint)
    ensures
        r@ == edwards_add_spec(p@, q@),
        edwards_valid_spec(r@),
{
    let a = CompressedEdwardsY(p.bytes).decompress().unwrap();
    let b = CompressedEdwardsY(q.bytes).decompress().unwrap();
    EdwardsPoint { bytes: (a + b).compress().to_bytes() }
}

/// `EdwardsPoint::to_montgomery` of curve25519-dalek, on the decompressed
/// point. The operand decompresses, by the invariant of `EdwardsPoint`.
#[verifier::external_body]
fn edwards_to_montgomery(p: &EdwardsPoint) -> (u: MontgomeryPoint)
    ensures
        u@ == edwards_to_montgomery_spec(p@),
{
    let point = CompressedEdwardsY(p.bytes).decompress().unwrap();
    MontgomeryPoint(point.to_montgomery().to_bytes())
}

} // verus!
