//! Points of the first source group of BLS12-381, in affine form.

use crate::bls12_381::fr::{add_mod, modulus, mul_mod, Scalar};
use crate::encoding::bytes_eq;
use ark_bls12_381::G1Affine;
use ark_ec::AffineCurve;
use ark_ff::{FromBytes, ToBytes};
use vstd::prelude::*;

verus! {

/// The length of an encoded point: two base-field coordinates of 48 bytes
/// each, and one byte that tells the point at infinity.
pub const ENCODED_LEN: usize = 97;

/// Whether the point that the bytes decode to satisfies the curve equation;
/// `None` when the bytes do not decode.
pub uninterp spec fn on_curve_spec(bytes: Seq<u8>) -> Option<bool>;

/// Whether the point that the bytes decode to is annihilated by the group
/// order; `None` when the bytes do not decode.
pub uninterp spec fn in_subgroup_spec(bytes: Seq<u8>) -> Option<bool>;

/// The encoding of `s · p`.
pub uninterp spec fn mul_spec(p: Seq<u8>, s: nat) -> Seq<u8>;

/// The encoding of `p + q`.
pub uninterp spec fn add_spec(p: Seq<u8>, q: Seq<u8>) -> Seq<u8>;

/// The law of scalar multiplication at the point `p`, in the form in which
/// the proofs and the commitments lean on it: `a p + c (b p) = (a + b c) p`,
/// for all field elements `a`, `b` and `c`. Nothing in this library shows
/// that the outside group obeys it; what is proved from it says so.
pub open spec fn scalar_law_at(p: Seq<u8>) -> bool {
    forall|a: nat, b: nat, c: nat|
        a < modulus() && b < modulus() && c < modulus() ==> #[trigger] add_spec(
            mul_spec(p, a),
            mul_spec(mul_spec(p, b), c),
        ) == mul_spec(p, add_mod(a, mul_mod(b, c)))
}

/// Whether the bytes are the encoding of a point of the prime-order group.
pub open spec fn valid_encoding(bytes: Seq<u8>) -> bool {
    &&& bytes.len() == ENCODED_LEN
    &&& on_curve_spec(bytes) == Some(true)
    &&& in_subgroup_spec(bytes) == Some(true)
}

/// The encoding of the fixed generator of the group: its two coordinates as
/// little-endian numbers, and a zero byte.
pub open spec fn generator_encoding() -> Seq<u8> {
    seq![
        187u8, 198, 34, 219, 10, 240, 58, 251, 239, 26, 122, 249, 63, 232, 85, 108,
        88, 172, 27, 23, 63, 58, 78, 161, 5, 185, 116, 151, 79, 140, 104, 195,
        15, 172, 169, 79, 140, 99, 149, 38, 148, 215, 151, 49, 167, 211, 241, 23,
        225, 231, 197, 70, 41, 35, 170, 12, 228, 138, 136, 162, 68, 199, 60, 208,
        237, 179, 4, 44, 203, 24, 219, 0, 246, 10, 208, 213, 149, 224, 245, 252,
        228, 138, 29, 116, 237, 48, 158, 160, 241, 160, 170, 227, 129, 244, 179, 8,
        0,
    ]
}

/// A point of the group, held as its encoding.
#[derive(Clone, Copy, Debug)]
pub struct G1Point {
    bytes: [u8; 97],
}

impl View for G1Point {
    type V = Seq<u8>;

    closed spec fn view(&self) -> Seq<u8> {
        self.bytes@
    }
}

impl G1Point {
    #[verifier::type_invariant]
    pub closed spec fn inv(self) -> bool {
        valid_encoding(self.bytes@)
    }

    /// The encoding of a point that the program holds is that of a point of
    /// the group.
    pub proof fn lemma_valid(self)
        requires
            self.inv(),
        ensures
            valid_encoding(self@),
    {
    }

    /// The fixed generator of the group.
    pub fn generator() -> (g: G1Point)
        ensures
            g@ == generator_encoding(),
    {
        g1_generator()
    }

    /// The point that 97 bytes encode, if they encode a point of the group.
    pub fn from_bytes(bytes: &[u8; 97]) -> (p: Option<G1Point>)
        ensures
            p.is_some() == valid_encoding(bytes@),
            p.is_some() ==> p.unwrap()@ == bytes@,
    {
        let on_curve = g1_on_curve(bytes);
        let in_subgroup = g1_in_subgroup(bytes);
        match (on_curve, in_subgroup) {
            (Some(true), Some(true)) => Some(G1Point { bytes: *bytes }),
            _ => None,
        }
    }

    /// The encoding of this point.
    pub fn to_bytes(&self) -> (out: [u8; 97])
        ensures
            out@ == self@,
    {
        self.bytes
    }

    /// The encoding of this point, borrowed.
    pub fn as_bytes(&self) -> (out: &[u8])
        ensures
            out@ == self@,
    {
        self.bytes.as_slice()
    }

    /// Whether two points have the same encoding.
    pub fn equals(&self, other: &G1Point) -> (same: bool)
        ensures
            same == (self@ == other@),
    {
        bytes_eq(self.bytes.as_slice(), other.bytes.as_slice())
    }

    /// `scalar · self`.
    pub fn mul(&self, scalar: &Scalar) -> (r: G1Point)
        ensures
            r@ == mul_spec(self@, scalar.value()),
    {
        g1_mul(self, scalar)
    }

    /// `self + other`.
    pub fn add(&self, other: &G1Point) -> (r: G1Point)
        ensures
            r@ == add_spec(self@, other@),
    {
        g1_add(self, other)
    }
}

/// `AffineCurve::prime_subgroup_generator` of `ark_bls12_381::G1Affine`,
/// written out with `ToBytes::write`: the generator that the curve's
/// parameters fix.
#[verifier::external_body]
pub(crate) fn g1_generator() -> (g: G1Point)
    ensures
        g@ == generator_encoding(),
        valid_encoding(g@),
{
    let mut bytes = [0u8; 97];
    G1Affine::prime_subgroup_generator().write(&mut bytes[..]).unwrap();
    G1Point { bytes }
}

/// `GroupAffine::is_on_curve` of ark-ec on the point that `FromBytes::read`
/// decodes; `None` when the bytes do not decode.
#[verifier::external_body]
pub(crate) fn g1_on_curve(bytes: &[u8; 97]) -> (r: Option<bool>)
    ensures
        r == on_curve_spec(bytes@),
{
    let point = G1Affine::read(&bytes[..]).ok()?;
    Some(point.is_on_curve())
}

/// `GroupAffine::is_in_correct_subgroup_assuming_on_curve` of ark-ec on the
/// point that `FromBytes::read` decodes; `None` when the bytes do not decode.
#[verifier::external_body]
pub(crate) fn g1_in_subgroup(bytes: &[u8; 97]) -> (r: Option<bool>)
    ensures
        r == in_subgroup_spec(bytes@),
{
    let point = G1Affine::read(&bytes[..]).ok()?;
    Some(point.is_in_correct_subgroup_assuming_on_curve())
}

/// `AffineCurve::mul` of `ark_bls12_381::G1Affine` by the scalar's
/// representative, brought back to affine form: a point of the group. The
/// operand decodes, by the invariant of `G1Point`.
#[verifier::external_body]
pub(crate) fn g1_mul(p: &G1Point, s: &Scalar) -> (r: G1Point)
    ensures
        r@ == mul_spec(p@, s.value()),
        valid_encoding(r@),
{
    let point = G1Affine::read(&p.bytes[..]).unwrap();
    let product: G1Affine = point.mul(ark_ff::BigInteger256([s.l0, s.l1, s.l2, s.l3])).into();
    let mut bytes = [0u8; 97];
    product.write(&mut bytes[..]).unwrap();
    G1Point { bytes }
}

/// `Add` of `ark_bls12_381::G1Affine`: a point of the group. The operands
/// decode, by the invariant of `G1Point`.
#[verifier::external_body]
pub(crate) fn g1_add(p: &G1Point, q: &G1Point) -> (r: G1Point)
    ensures
        r@ == add_spec(p@, q@),
        valid_encoding(r@),
{
    let a = G1Affine::read(&p.bytes[..]).unwrap();
    let b = G1Affine::read(&q.bytes[..]).unwrap();
    let mut bytes = [0u8; 97];
    (a + b).write(&mut bytes[..]).unwrap();
    G1Point { bytes }
}

} // verus!
