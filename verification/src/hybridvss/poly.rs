//! Polynomials over the scalar field: evaluation, Lagrange interpolation and
//! the symmetric bivariate polynomial of a dealer.

use crate::bls12_381::fr::{
    add_mod, fr_add, fr_inverse, fr_mul, fr_sub, inv_mod, lemma_inv_mod_is, lemma_sub_mod_zero,
    modulus, mul_mod, sub_mod, Scalar,
};
use crate::hybridvss::domain::values;
use vstd::prelude::*;

verus! {

/// The value at `x` of the polynomial whose coefficient of `x^k` is
/// `coeffs[k]`, in the field.
pub open spec fn eval_spec(coeffs: Seq<nat>, x: nat) -> nat
    decreases coeffs.len(),
{
    if coeffs.len() == 0 {
        0
    } else {
        add_mod(coeffs[0], mul_mod(x, eval_spec(coeffs.drop_first(), x)))
    }
}

/// Evaluates a polynomial, given by its coefficients from the constant term
/// up, at `x`.
pub fn evaluate(coeffs: &Vec<Scalar>, x: &Scalar) -> (y: Scalar)
    ensures
        y.value() == eval_spec(values(coeffs@), x.value()),
{
    let ghost c = values(coeffs@);
    let mut acc = Scalar::zero();
    let mut k: usize = coeffs.len();
    assert(c.subrange(k as int, c.len() as int) =~= Seq::<nat>::empty());
    while k > 0
        invariant
            k <= coeffs.len(),
            c == values(coeffs@),
            acc.value() == eval_spec(c.subrange(k as int, c.len() as int), x.value()),
        decreases k,
    {
        k -= 1;
        proof {
            let tail = c.subrange(k as int, c.len() as int);
            assert(tail.drop_first() =~= c.subrange(k + 1, c.len() as int));
            assert(tail[0] == coeffs@[k as int].value());
        }
        acc = fr_add(&coeffs[k], &fr_mul(x, &acc));
    }
    assert(c.subrange(0, c.len() as int) =~= c);
    acc
}

/// No two of the numbers are equal.
pub open spec fn distinct(xs: Seq<nat>) -> bool {
    forall|j: int, m: int| 0 <= j < m < xs.len() ==> xs[j] != xs[m]
}

/// The product of the inverses of `xs[j] - xs[m]` over the `m` below `upto`
/// other than `j`.
pub open spec fn weight_upto(xs: Seq<nat>, j: int, upto: int) -> nat
    decreases upto,
{
    if upto <= 0 {
        1
    } else if upto - 1 == j {
        weight_upto(xs, j, upto - 1)
    } else {
        mul_mod(weight_upto(xs, j, upto - 1), inv_mod(sub_mod(xs[j], xs[upto - 1])))
    }
}

/// The product of `x - xs[m]` over the `m` below `upto` other than `j`.
pub open spec fn numerator_upto(xs: Seq<nat>, j: int, x: nat, upto: int) -> nat
    decreases upto,
{
    if upto <= 0 {
        1
    } else if upto - 1 == j {
        numerator_upto(xs, j, x, upto - 1)
    } else {
        mul_mod(numerator_upto(xs, j, x, upto - 1), sub_mod(x, xs[upto - 1]))
    }
}

/// The value at `x` of the Lagrange basis polynomial of the node `xs[j]`:
/// the product over the other nodes `xs[m]` of `(x - xs[m]) / (xs[j] - xs[m])`.
pub open spec fn basis(xs: Seq<nat>, j: int, x: nat) -> nat {
    mul_mod(numerator_upto(xs, j, x, xs.len() as int), weight_upto(xs, j, xs.len() as int))
}

/// The sum of `ys[j]` times the basis polynomial of `xs[j]` at `x`, over the
/// `j` below `upto`.
pub open spec fn interpolate_upto(xs: Seq<nat>, ys: Seq<nat>, x: nat, upto: int) -> nat
    decreases upto,
{
    if upto <= 0 {
        0
    } else {
        add_mod(
            interpolate_upto(xs, ys, x, upto - 1),
            mul_mod(ys[upto - 1], basis(xs, upto - 1, x)),
        )
    }
}

/// The value at `x` of the polynomial of least degree that takes the value
/// `ys[j]` at `xs[j]` for every `j`, by Lagrange's formula.
pub open spec fn interpolate_spec(xs: Seq<nat>, ys: Seq<nat>, x: nat) -> nat {
    interpolate_upto(xs, ys, x, xs.len() as int)
}

/// The nodes and values of an interpolation, with the denominators of
/// Lagrange's formula inverted once for all evaluations.
pub struct Interpolation {
    xs: Vec<Scalar>,
    ys: Vec<Scalar>,
    weights: Vec<Scalar>,
}

impl Interpolation {
    #[verifier::type_invariant]
    pub closed spec fn inv(self) -> bool {
        &&& self.xs@.len() == self.ys@.len()
        &&& self.xs@.len() == self.weights@.len()
        &&& forall|j: int|
            0 <= j < self.xs@.len() ==> #[trigger] self.weights@[j].value() == weight_upto(
                values(self.xs@),
                j,
                self.xs@.len() as int,
            )
    }

    /// The nodes.
    pub closed spec fn nodes(self) -> Seq<nat> {
        values(self.xs@)
    }

    /// The values at the nodes.
    pub closed spec fn node_values(self) -> Seq<nat> {
        values(self.ys@)
    }

    /// Prepares the interpolation through the points `(xs[j], ys[j])`.
    /// `None` where the lists differ in length or two nodes are equal.
    pub fn new(xs: Vec<Scalar>, ys: Vec<Scalar>) -> (r: Option<Interpolation>)
        ensures
            r.is_some() == (xs@.len() == ys@.len() && distinct(values(xs@))),
            r.is_some() ==> r.unwrap().nodes() == values(xs@) && r.unwrap().node_values()
                == values(ys@),
    {
        if xs.len() != ys.len() {
            return None;
        }
        let ghost v = values(xs@);
        let mut weights: Vec<Scalar> = Vec::new();
        let mut j: usize = 0;
        while j < xs.len()
            invariant
                j <= xs.len(),
                v == values(xs@),
                weights@.len() == j,
                forall|a: int, b: int| 0 <= a < j && 0 <= b < xs.len() && a != b ==> v[a] != v[b],
                forall|a: int|
                    0 <= a < j ==> #[trigger] weights@[a].value() == weight_upto(
                        v,
                        a,
                        xs.len() as int,
                    ),
            decreases xs.len() - j,
        {
            let mut weight = Scalar::one();
            let mut m: usize = 0;
            while m < xs.len()
                invariant
                    m <= xs.len(),
                    j < xs.len(),
                    v == values(xs@),
                    weight.value() == weight_upto(v, j as int, m as int),
                    forall|b: int| 0 <= b < m && b != j ==> v[j as int] != v[b],
                decreases xs.len() - m,
            {
                if m != j {
                    let x_j = &xs[j];
                    let x_m = &xs[m];
                    let difference = fr_sub(x_j, x_m);
                    proof {
                        use_type_invariant(x_j);
                        use_type_invariant(x_m);
                        x_j.lemma_value_bound();
                        x_m.lemma_value_bound();
                        lemma_sub_mod_zero(x_j.value(), x_m.value());
                    }
                    match fr_inverse(&difference) {
                        Some(inverse) => {
                            proof {
                                lemma_inv_mod_is(difference.value(), inverse.value());
                            }
                            weight = fr_mul(&weight, &inverse);
                        },
                        None => {
                            assert(v[j as int] == v[m as int]);
                            assert(!distinct(v)) by {
                                if j < m {
                                    assert(v[j as int] == v[m as int]);
                                } else {
                                    assert(v[m as int] == v[j as int]);
                                }
                            }
                            return None;
                        },
                    }
                }
                m += 1;
            }
            weights.push(weight);
            j += 1;
        }
        assert(distinct(v));
        Some(Interpolation { xs, ys, weights })
    }

    /// The value of the interpolating polynomial at `x`.
    pub fn evaluate(&self, x: &Scalar) -> (y: Scalar)
        ensures
            y.value() == interpolate_spec(self.nodes(), self.node_values(), x.value()),
    {
        proof {
            use_type_invariant(self);
        }
        let ghost v = values(self.xs@);
        let ghost u = values(self.ys@);
        let n = self.xs.len();
        let mut sum = Scalar::zero();
        let mut j: usize = 0;
        while j < n
            invariant
                j <= n,
                n == self.xs@.len(),
                self.inv(),
                v == values(self.xs@),
                u == values(self.ys@),
                sum.value() == interpolate_upto(v, u, x.value(), j as int),
            decreases n - j,
        {
            let mut numerator = Scalar::one();
            let mut m: usize = 0;
            while m < n
                invariant
                    m <= n,
                    j < n,
                    n == self.xs@.len(),
                    v == values(self.xs@),
                    numerator.value() == numerator_upto(v, j as int, x.value(), m as int),
                decreases n - m,
            {
                if m != j {
                    numerator = fr_mul(&numerator, &fr_sub(x, &self.xs[m]));
                }
                m += 1;
            }
            let term = fr_mul(&self.ys[j], &fr_mul(&numerator, &self.weights[j]));
            sum = fr_add(&sum, &term);
            j += 1;
        }
        sum
    }
}

} // verus!
