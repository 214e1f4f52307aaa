//! The symmetric bivariate polynomial that a dealer shares a secret with.

use crate::bls12_381::fr::Scalar;
use crate::hybridvss::domain::values;
use crate::hybridvss::poly::{eval_spec, evaluate};
use rand::rngs::StdRng;
use vstd::prelude::*;

verus! {

/// The coefficients of a bivariate polynomial: `phi[j][l]` is the
/// coefficient of `x^j y^l`.
pub type Coefficients = Seq<Seq<nat>>;

/// The representatives of a matrix of field elements.
pub open spec fn matrix_values(rows: Seq<Vec<Scalar>>) -> Coefficients {
    Seq::new(rows.len(), |j: int| values(rows[j]@))
}

/// The matrix has `size` rows of `size` entries.
pub open spec fn square(phi: Coefficients, size: nat) -> bool {
    &&& phi.len() == size
    &&& forall|j: int| 0 <= j < phi.len() ==> (#[trigger] phi[j]).len() == size
}

/// The coefficient of `x^j y^l` is that of `x^l y^j`.
pub open spec fn symmetric(phi: Coefficients) -> bool {
    forall|j: int, l: int|
        0 <= j < phi.len() && 0 <= l < phi.len() ==> #[trigger] phi[j][l] == #[trigger] phi[l][j]
}

/// The polynomial is of degree at most `t` in each variable, symmetric, and
/// its constant term is `s`.
pub open spec fn shares_secret(phi: Coefficients, t: nat, s: nat) -> bool {
    &&& square(phi, t + 1)
    &&& symmetric(phi)
    &&& phi[0][0] == s
}

/// The coefficients in `x` of the polynomial with `y` fixed: the coefficient
/// of `x^j` is the value at `y` of row `j`.
pub open spec fn row_polynomial_spec(phi: Coefficients, y: nat) -> Seq<nat> {
    Seq::new(phi.len(), |j: int| eval_spec(phi[j], y))
}

/// A symmetric bivariate polynomial of the same degree in both variables.
pub struct BivariatePoly {
    coeffs: Vec<Vec<Scalar>>,
}

impl View for BivariatePoly {
    type V = Coefficients;

    closed spec fn view(&self) -> Coefficients {
        matrix_values(self.coeffs@)
    }
}

impl BivariatePoly {
    #[verifier::type_invariant]
    pub closed spec fn inv(self) -> bool {
        &&& square(matrix_values(self.coeffs@), self.coeffs@.len() as nat)
        &&& symmetric(matrix_values(self.coeffs@))
    }

    /// A polynomial of degree at most `t` in each variable with the constant
    /// term `s`, its other coefficients drawn from `rng` and mirrored.
    pub fn random(s: &Scalar, t: u32, rng: &mut StdRng) -> (phi: BivariatePoly)
        requires
            t < u32::MAX,
        ensures
            shares_secret(phi@, t as nat, s.value()),
    {
        let size: u32 = t + 1;
        let mut coeffs: Vec<Vec<Scalar>> = Vec::new();
        let mut j: u32 = 0;
        while j < size
            invariant
                j <= size,
                size == t + 1,
                coeffs@.len() == j,
                forall|a: int| 0 <= a < j ==> (#[trigger] coeffs@[a])@.len() == size,
                forall|a: int, b: int|
                    0 <= a < j && 0 <= b < j ==> #[trigger] coeffs@[a]@[b].value()
                        == #[trigger] coeffs@[b]@[a].value(),
                j > 0 ==> coeffs@[0]@[0].value() == s.value(),
            decreases size - j,
        {
            let mut row: Vec<Scalar> = Vec::new();
            let mut l: u32 = 0;
            while l < size
                invariant
                    l <= size,
                    j < size,
                    coeffs@.len() == j,
                    row@.len() == l,
                    forall|a: int| 0 <= a < j ==> (#[trigger] coeffs@[a])@.len() == size,
                    forall|b: int|
                        0 <= b < l && b < j ==> #[trigger] row@[b].value()
                            == coeffs@[b]@[j as int].value(),
                    j == 0 && l > 0 ==> row@[0].value() == s.value(),
                decreases size - l,
            {
                let entry = if l < j {
                    coeffs[l as usize][j as usize]
                } else if j == 0 && l == 0 {
                    *s
                } else {
                    Scalar::random(rng)
                };
                row.push(entry);
                l += 1;
            }
            coeffs.push(row);
            j += 1;
        }
        let phi = BivariatePoly { coeffs };
        assert(phi@[0][0] == s.value());
        phi
    }

    /// Takes a matrix of coefficients for a polynomial, if it is square and
    /// symmetric.
    pub fn from_coefficients(coeffs: Vec<Vec<Scalar>>) -> (phi: Option<BivariatePoly>)
        ensures
            phi.is_some() == (square(matrix_values(coeffs@), coeffs@.len() as nat) && symmetric(
                matrix_values(coeffs@),
            )),
            phi.is_some() ==> phi.unwrap()@ == matrix_values(coeffs@),
    {
        let ghost v = matrix_values(coeffs@);
        let size = coeffs.len();
        let mut j: usize = 0;
        while j < size
            invariant
                j <= size,
                size == coeffs@.len(),
                v == matrix_values(coeffs@),
                forall|a: int| 0 <= a < j ==> (#[trigger] v[a]).len() == size,
            decreases size - j,
        {
            if coeffs[j].len() != size {
                assert(v[j as int].len() != size);
                return None;
            }
            j += 1;
        }
        let mut j: usize = 0;
        while j < size
            invariant
                j <= size,
                size == coeffs@.len(),
                v == matrix_values(coeffs@),
                square(v, size as nat),
                forall|a: int, b: int|
                    0 <= a < j && 0 <= b < size ==> #[trigger] v[a][b] == #[trigger] v[b][a],
            decreases size - j,
        {
            let mut l: usize = 0;
            while l < size
                invariant
                    l <= size,
                    j < size,
                    size == coeffs@.len(),
                    v == matrix_values(coeffs@),
                    square(v, size as nat),
                    forall|b: int| 0 <= b < l ==> #[trigger] v[j as int][b] == v[b][j as int],
                decreases size - l,
            {
                assert(v[j as int].len() == size);
                assert(v[l as int].len() == size);
                if !coeffs[j][l].equals(&coeffs[l][j]) {
                    assert(v[j as int][l as int] != v[l as int][j as int]);
                    return None;
                }
                l += 1;
            }
            j += 1;
        }
        Some(BivariatePoly { coeffs })
    }

    /// The number of coefficients in each variable.
    pub fn size(&self) -> (size: usize)
        ensures
            size == self@.len(),
    {
        self.coeffs.len()
    }

    /// The coefficients in `x` of the polynomial with `y` fixed.
    pub fn row_polynomial(&self, y: &Scalar) -> (row: Vec<Scalar>)
        ensures
            values(row@) == row_polynomial_spec(self@, y.value()),
    {
        let mut row: Vec<Scalar> = Vec::new();
        let mut j: usize = 0;
        while j < self.coeffs.len()
            invariant
                j <= self.coeffs.len(),
                row@.len() == j,
                forall|a: int|
                    0 <= a < j ==> #[trigger] row@[a].value() == eval_spec(self@[a], y.value()),
            decreases self.coeffs.len() - j,
        {
            row.push(evaluate(&self.coeffs[j], y));
            j += 1;
        }
        assert(values(row@) =~= row_polynomial_spec(self@, y.value()));
        row
    }

    /// Overwrites every coefficient with zero.
    pub fn zeroize(&mut self)
        ensures
            final(self)@.len() == old(self)@.len(),
            forall|j: int, l: int|
                0 <= j < final(self)@.len() && 0 <= l < final(self)@.len() ==> final(self)@[j][l]
                    == 0,
    {
        proof {
            use_type_invariant(&*self);
        }
        let size = self.coeffs.len();
        let mut zeros: Vec<Vec<Scalar>> = Vec::new();
        let mut j: usize = 0;
        while j < size
            invariant
                j <= size,
                zeros@.len() == j,
                forall|a: int| 0 <= a < j ==> (#[trigger] zeros@[a])@.len() == size,
                forall|a: int, b: int|
                    0 <= a < j && 0 <= b < size ==> (#[trigger] zeros@[a]@[b]).value() == 0,
            decreases size - j,
        {
            let mut row: Vec<Scalar> = Vec::new();
            let mut l: usize = 0;
            while l < size
                invariant
                    l <= size,
                    row@.len() == l,
                    forall|b: int| 0 <= b < l ==> (#[trigger] row@[b]).value() == 0,
                decreases size - l,
            {
                row.push(Scalar::zero());
                l += 1;
            }
            zeros.push(row);
            j += 1;
        }
        self.coeffs = zeros;
    }
}

} // verus!
