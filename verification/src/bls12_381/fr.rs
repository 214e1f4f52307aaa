//! Elements of the scalar field of BLS12-381.

use crate::bls12_381::reduction::{lemma_reduce_mul_congruent, lemma_reduce_small};
use crate::encoding::le_value;
use ark_ff::{Field, FromBytes, PrimeField, ToBytes};
use rand::rngs::StdRng;
use vstd::arithmetic::div_mod::{lemma_fundamental_div_mod_converse, lemma_small_mod};
use vstd::prelude::*;

verus! {

/// The order of the scalar field, a 255-bit prime.
pub open spec fn modulus() -> nat {
    0x73eda753299d7d483339d80809a1d80553bda402fffe5bfeffffffff00000001nat
}

/// The integer that four 64-bit limbs stand for, `l0` the least significant.
pub open spec fn limbs_value(l0: u64, l1: u64, l2: u64, l3: u64) -> nat {
    (l0 as nat) + (l1 as nat) * 0x1_0000_0000_0000_0000nat + (l2 as nat)
        * 0x1_0000_0000_0000_0000_0000_0000_0000_0000nat + (l3 as nat)
        * 0x1_0000_0000_0000_0000_0000_0000_0000_0000_0000_0000_0000_0000nat
}

/// A field element, held as the four limbs of its canonical representative.
#[derive(Clone, Copy, Debug, PartialEq, Eq, Structural)]
pub struct Scalar {
    pub(crate) l0: u64,
    pub(crate) l1: u64,
    pub(crate) l2: u64,
    pub(crate) l3: u64,
}

impl Scalar {
    #[verifier::type_invariant]
    pub closed spec fn inv(self) -> bool {
        limbs_value(self.l0, self.l1, self.l2, self.l3) < modulus()
    }

    /// The canonical representative, below the modulus.
    pub closed spec fn value(self) -> nat {
        limbs_value(self.l0, self.l1, self.l2, self.l3)
    }

    /// The value of a field element that the program holds is reduced.
    pub proof fn lemma_value_bound(self)
        requires
            self.inv(),
        ensures
            self.value() < modulus(),
    {
    }

    /// Two field elements with the same representative are the same value.
    pub proof fn lemma_value_injective(self, other: Scalar)
        requires
            self.value() == other.value(),
        ensures
            self == other,
    {
        let a = self;
        let b = other;
        let d0 = a.l0 as int - b.l0 as int;
        let d1 = a.l1 as int - b.l1 as int;
        let d2 = a.l2 as int - b.l2 as int;
        let d3 = a.l3 as int - b.l3 as int;
        let base = 0x1_0000_0000_0000_0000int;
        assert(d0 + base * (d1 + base * (d2 + base * d3)) == 0) by (nonlinear_arith)
            requires
                base == 0x1_0000_0000_0000_0000int,
                d0 + d1 * 0x1_0000_0000_0000_0000int + d2
                    * 0x1_0000_0000_0000_0000_0000_0000_0000_0000int + d3
                    * 0x1_0000_0000_0000_0000_0000_0000_0000_0000_0000_0000_0000_0000int == 0,
        ;
        lemma_digit_zero(d0, d1 + base * (d2 + base * d3));
        lemma_digit_zero(d1, d2 + base * d3);
        lemma_digit_zero(d2, d3);
    }

    /// The additive identity.
    pub fn zero() -> (r: Scalar)
        ensures
            r.value() == 0,
    {
        Scalar { l0: 0, l1: 0, l2: 0, l3: 0 }
    }

    /// The multiplicative identity.
    pub fn one() -> (r: Scalar)
        ensures
            r.value() == 1,
    {
        Scalar { l0: 1, l1: 0, l2: 0, l3: 0 }
    }

    /// The field element of a small integer.
    pub fn from_u64(x: u64) -> (r: Scalar)
        ensures
            r.value() == x,
    {
        Scalar { l0: x, l1: 0, l2: 0, l3: 0 }
    }

    /// Whether this is the additive identity.
    pub fn is_zero(&self) -> (z: bool)
        ensures
            z == (self.value() == 0),
    {
        self.l0 == 0 && self.l1 == 0 && self.l2 == 0 && self.l3 == 0
    }

    /// Whether two field elements are the same.
    pub fn equals(&self, other: &Scalar) -> (same: bool)
        ensures
            same == (self.value() == other.value()),
            same == (*self == *other),
    {
        proof {
            if self.value() == other.value() {
                self.lemma_value_injective(*other);
            }
        }
        self.l0 == other.l0 && self.l1 == other.l1 && self.l2 == other.l2 && self.l3 == other.l3
    }

    /// A field element drawn from `rng`.
    pub fn random(rng: &mut StdRng) -> (r: Scalar)
        ensures
            r.value() < modulus(),
    {
        fr_random(rng)
    }

    /// The field element that 32 little-endian bytes stand for, if they stand
    /// for a number below the modulus.
    pub fn from_le_bytes(bytes: &[u8; 32]) -> (r: Option<Scalar>)
        ensures
            r.is_some() == (le_value(bytes@) < modulus()),
            r.is_some() ==> r.unwrap().value() == le_value(bytes@),
    {
        fr_read(bytes)
    }

    /// The field element of a little-endian number of any length, reduced
    /// modulo the field order.
    pub fn from_le_bytes_mod_order(bytes: &[u8]) -> (r: Scalar)
        ensures
            r.value() == le_value(bytes@) % modulus(),
    {
        fr_reduce(bytes)
    }

    /// The 32 little-endian bytes of the representative.
    pub fn to_le_bytes(&self) -> (out: [u8; 32])
        ensures
            le_value(out@) == self.value(),
    {
        fr_write(self)
    }

    /// The sum of two field elements.
    pub fn add(&self, other: &Scalar) -> (r: Scalar)
        ensures
            r.value() == add_mod(self.value(), other.value()),
    {
        fr_add(self, other)
    }

    /// The difference of two field elements.
    pub fn sub(&self, other: &Scalar) -> (r: Scalar)
        ensures
            r.value() == sub_mod(self.value(), other.value()),
    {
        fr_sub(self, other)
    }

    /// The product of two field elements.
    pub fn mul(&self, other: &Scalar) -> (r: Scalar)
        ensures
            r.value() == mul_mod(self.value(), other.value()),
    {
        fr_mul(self, other)
    }
}

/// A number of magnitude below 2^64 that is a multiple of 2^64 is zero.
proof fn lemma_digit_zero(d: int, rest: int)
    requires
        -0x1_0000_0000_0000_0000int < d < 0x1_0000_0000_0000_0000int,
        d + 0x1_0000_0000_0000_0000int * rest == 0,
    ensures
        d == 0,
        rest == 0,
{
    assert(rest == 0) by (nonlinear_arith)
        requires
            -0x1_0000_0000_0000_0000int < d < 0x1_0000_0000_0000_0000int,
            d + 0x1_0000_0000_0000_0000int * rest == 0,
    ;
}

/// Addition in the field, on representatives.
pub open spec fn add_mod(a: nat, b: nat) -> nat {
    (a + b) % modulus()
}

/// Subtraction in the field, on representatives.
pub open spec fn sub_mod(a: nat, b: nat) -> nat {
    ((a - b) % (modulus() as int)) as nat
}

/// Multiplication in the field, on representatives.
pub open spec fn mul_mod(a: nat, b: nat) -> nat {
    (a * b) % modulus()
}

/// Whether `b` is the inverse of `a` in the field.
pub open spec fn is_inverse(a: nat, b: nat) -> bool {
    b < modulus() && mul_mod(a, b) == 1
}

/// The number has an inverse in the field.
pub open spec fn invertible(a: nat) -> bool {
    exists|b: nat| is_inverse(a, b)
}

/// The inverse of `a` in the field, for an `a` that has one.
pub open spec fn inv_mod(a: nat) -> nat {
    choose|b: nat| is_inverse(a, b)
}

/// An element has at most one inverse.
pub proof fn lemma_inverse_unique(a: nat, b1: nat, b2: nat)
    requires
        is_inverse(a, b1),
        is_inverse(a, b2),
    ensures
        b1 == b2,
{
    let (x, y1, y2) = (a as int, b1 as int, b2 as int);
    // b1 = b1 * (a * b2) = (a * b1) * b2 = b2, all in the field.
    lemma_reduce_small(1);
    lemma_reduce_small(b1);
    lemma_reduce_small(b2);
    lemma_reduce_mul_congruent(x * y2, 1, y1);
    lemma_reduce_mul_congruent(x * y1, 1, y2);
    assert(y1 * (x * y2) == (x * y1) * y2) by (nonlinear_arith);
    assert(y1 * 1 == y1 && 1 * y2 == y2);
}

/// The inverse that a computation found is the inverse.
pub proof fn lemma_inv_mod_is(a: nat, b: nat)
    requires
        is_inverse(a, b),
    ensures
        inv_mod(a) == b,
{
    lemma_inverse_unique(a, b, inv_mod(a));
}

/// Two reduced numbers differ by zero in the field only if they are equal.
pub proof fn lemma_sub_mod_zero(a: nat, b: nat)
    requires
        a < modulus(),
        b < modulus(),
    ensures
        (sub_mod(a, b) == 0) == (a == b),
        sub_mod(a, b) < modulus(),
{
    let p = modulus() as int;
    if a >= b {
        lemma_small_mod((a - b) as nat, p as nat);
    } else {
        lemma_fundamental_div_mod_converse(a - b, p, -1, a - b + p);
    }
}

/// `Add` of `ark_bls12_381::Fr`: the sum of the two representatives, reduced
/// modulo the field order. Here and below the operands are reduced, by the
/// invariant of `Scalar`, so that `from_repr` takes them.
#[verifier::external_body]
pub(crate) fn fr_add(a: &Scalar, b: &Scalar) -> (r: Scalar)
    ensures
        r.value() == add_mod(a.value(), b.value()),
{
    let x = ark_bls12_381::Fr::from_repr(ark_ff::BigInteger256([a.l0, a.l1, a.l2, a.l3])).unwrap();
    let y = ark_bls12_381::Fr::from_repr(ark_ff::BigInteger256([b.l0, b.l1, b.l2, b.l3])).unwrap();
    let l = (x + y).into_repr().0;
    Scalar { l0: l[0], l1: l[1], l2: l[2], l3: l[3] }
}

/// `Sub` of `ark_bls12_381::Fr`: the difference of the two representatives,
/// reduced modulo the field order to a number that is not negative.
#[verifier::external_body]
pub(crate) fn fr_sub(a: &Scalar, b: &Scalar) -> (r: Scalar)
    ensures
        r.value() == sub_mod(a.value(), b.value()),
{
    let x = ark_bls12_381::Fr::from_repr(ark_ff::BigInteger256([a.l0, a.l1, a.l2, a.l3])).unwrap();
    let y = ark_bls12_381::Fr::from_repr(ark_ff::BigInteger256([b.l0, b.l1, b.l2, b.l3])).unwrap();
    let l = (x - y).into_repr().0;
    Scalar { l0: l[0], l1: l[1], l2: l[2], l3: l[3] }
}

/// `Mul` of `ark_bls12_381::Fr`: the product of the two representatives,
/// reduced modulo the field order.
#[verifier::external_body]
pub(crate) fn fr_mul(a: &Scalar, b: &Scalar) -> (r: Scalar)
    ensures
        r.value() == mul_mod(a.value(), b.value()),
{
    let x = ark_bls12_381::Fr::from_repr(ark_ff::BigInteger256([a.l0, a.l1, a.l2, a.l3])).unwrap();
    let y = ark_bls12_381::Fr::from_repr(ark_ff::BigInteger256([b.l0, b.l1, b.l2, b.l3])).unwrap();
    let l = (x * y).into_repr().0;
    Scalar { l0: l[0], l1: l[1], l2: l[2], l3: l[3] }
}

/// `Field::inverse` of `ark_bls12_381::Fr`: `None` for zero, and for any
/// other element the one whose product with it is one.
#[verifier::external_body]
pub(crate) fn fr_inverse(a: &Scalar) -> (r: Option<Scalar>)
    ensures
        r.is_some() == (a.value() != 0),
        r.is_some() ==> is_inverse(a.value(), r.unwrap().value()),
{
    let x = ark_bls12_381::Fr::from_repr(ark_ff::BigInteger256([a.l0, a.l1, a.l2, a.l3])).unwrap();
    let l = x.inverse()?.into_repr().0;
    Some(Scalar { l0: l[0], l1: l[1], l2: l[2], l3: l[3] })
}

/// `UniformRand::rand` of `ark_bls12_381::Fr`: an element sampled from
/// `rng`. Nothing is claimed of which element it is, but that it is reduced.
#[verifier::external_body]
pub(crate) fn fr_random(rng: &mut StdRng) -> (r: Scalar)
    ensures
        r.value() < modulus(),
{
    let x: ark_bls12_381::Fr = ark_std::UniformRand::rand(rng);
    let l = x.into_repr().0;
    Scalar { l0: l[0], l1: l[1], l2: l[2], l3: l[3] }
}

/// `FromBytes::read` of `ark_bls12_381::Fr` on 32 bytes: the element whose
/// representative is the little-endian number of the bytes, or `None` when
/// that number is not below the field order.
#[verifier::external_body]
pub(crate) fn fr_read(bytes: &[u8; 32]) -> (r: Option<Scalar>)
    ensures
        r.is_some() == (le_value(bytes@) < modulus()),
        r.is_some() ==> r.unwrap().value() == le_value(bytes@),
{
    let l = ark_bls12_381::Fr::read(&bytes[..]).ok()?.into_repr().0;
    Some(Scalar { l0: l[0], l1: l[1], l2: l[2], l3: l[3] })
}

/// `ToBytes::write` of `ark_bls12_381::Fr`: the representative as 32
/// little-endian bytes.
#[verifier::external_body]
pub(crate) fn fr_write(a: &Scalar) -> (out: [u8; 32])
    ensures
        le_value(out@) == a.value(),
{
    let x = ark_bls12_381::Fr::from_repr(ark_ff::BigInteger256([a.l0, a.l1, a.l2, a.l3])).unwrap();
    let mut out = [0u8; 32];
    x.write(&mut out[..]).unwrap();
    out
}

/// `PrimeField::from_le_bytes_mod_order` of `ark_bls12_381::Fr`: the
/// little-endian number of the bytes, reduced modulo the field order.
#[verifier::external_body]
pub(crate) fn fr_reduce(bytes: &[u8]) -> (r: Scalar)
    ensures
        r.value() == le_value(bytes@) % modulus(),
{
    let l = ark_bls12_381::Fr::from_le_bytes_mod_order(bytes).into_repr().0;
    Scalar { l0: l[0], l1: l[1], l2: l[2], l3: l[3] }
}

} // verus!
