//! Field arithmetic seen as integer arithmetic followed by a reduction: what
//! lets an identity of the field be shown as an identity of integers.

use crate::bls12_381::fr::{add_mod, modulus, mul_mod, sub_mod};
use vstd::arithmetic::div_mod::{
    lemma_add_mod_noop, lemma_mod_bound, lemma_mul_mod_noop, lemma_small_mod, lemma_sub_mod_noop,
};
use vstd::prelude::*;

verus! {

/// The representative of an integer in the field.
pub open spec fn reduce(a: int) -> nat {
    (a % (modulus() as int)) as nat
}

/// A representative is below the modulus.
pub proof fn lemma_reduce_bound(a: int)
    ensures
        reduce(a) < modulus(),
{
    lemma_mod_bound(a, modulus() as int);
}

/// A number below the modulus is its own representative.
pub proof fn lemma_reduce_small(a: nat)
    requires
        a < modulus(),
    ensures
        reduce(a as int) == a,
{
    lemma_small_mod(a, modulus());
}

/// The sum in the field is the representative of the sum.
pub proof fn lemma_add_reduce(a: int, b: int)
    ensures
        add_mod(reduce(a), reduce(b)) == reduce(a + b),
{
    lemma_add_mod_noop(a, b, modulus() as int);
}

/// The difference in the field is the representative of the difference.
pub proof fn lemma_sub_reduce(a: int, b: int)
    ensures
        sub_mod(reduce(a), reduce(b)) == reduce(a - b),
{
    lemma_sub_mod_noop(a, b, modulus() as int);
}

/// The product in the field is the representative of the product.
pub proof fn lemma_mul_reduce(a: int, b: int)
    ensures
        mul_mod(reduce(a), reduce(b)) == reduce(a * b),
{
    lemma_mul_mod_noop(a, b, modulus() as int);
}

/// Integers with the same representative have products with the same
/// representative.
pub proof fn lemma_reduce_mul_congruent(a: int, b: int, c: int)
    requires
        reduce(a) == reduce(b),
    ensures
        reduce(a * c) == reduce(b * c),
        reduce(c * a) == reduce(c * b),
{
    lemma_mul_reduce(a, c);
    lemma_mul_reduce(b, c);
    lemma_mul_reduce(c, a);
    lemma_mul_reduce(c, b);
}

/// Integers with the same representative have sums with the same
/// representative.
pub proof fn lemma_reduce_add_congruent(a: int, b: int, c: int)
    requires
        reduce(a) == reduce(b),
    ensures
        reduce(a + c) == reduce(b + c),
        reduce(c + a) == reduce(c + b),
{
    lemma_add_reduce(a, c);
    lemma_add_reduce(b, c);
    lemma_add_reduce(c, a);
    lemma_add_reduce(c, b);
}

} // verus!
