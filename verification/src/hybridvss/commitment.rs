//! The commitment matrix of a dealer and the checks of evaluations against
//! it.
//!
//! Row `m` of the matrix commits to the coefficients of the polynomial that
//! the dealer hands to participant `m`: entry `k` is the generator times the
//! coefficient of `x^k`.

use crate::bls12_381::fr::Scalar;
use crate::bls12_381::g1::{
    add_spec, g1_add, g1_generator, g1_mul, generator_encoding, mul_spec, G1Point,
};
use vstd::prelude::*;

verus! {

/// A commitment matrix as the encodings of its entries, row by row.
pub type CommitmentView = Seq<Seq<Seq<u8>>>;

/// The encodings of a row of points.
pub open spec fn row_view(row: Seq<G1Point>) -> Seq<Seq<u8>> {
    Seq::new(row.len(), |k: int| row[k]@)
}

/// The commitment to the value of a committed polynomial at `x`: the entries
/// of the row combined with the powers of `x`, by Horner's rule in the group.
/// A row without entries commits to nothing.
pub open spec fn row_eval_spec(row: Seq<Seq<u8>>, x: nat) -> Seq<u8>
    decreases row.len(),
{
    if row.len() == 0 {
        Seq::empty()
    } else if row.len() == 1 {
        row[0]
    } else {
        add_spec(row[0], mul_spec(row_eval_spec(row.drop_first(), x), x))
    }
}

/// The commitment to a field element: the generator times the element.
pub open spec fn commit_spec(value: nat) -> Seq<u8> {
    mul_spec(generator_encoding(), value)
}

/// The matrix has a row of `t + 1` entries for each of `n` participants.
pub open spec fn well_shaped(c: CommitmentView, n: nat, t: nat) -> bool {
    &&& c.len() == n
    &&& forall|m: int| 0 <= m < c.len() ==> (#[trigger] c[m]).len() == t + 1
}

/// Whether `alpha` is the value at `beta` of the polynomial that row `m` of a
/// matrix for `n` participants and threshold `t` commits to.
pub open spec fn evaluation_ok(
    c: CommitmentView,
    n: nat,
    t: nat,
    m: nat,
    beta: nat,
    alpha: nat,
) -> bool {
    &&& well_shaped(c, n, t)
    &&& m < n
    &&& row_eval_spec(c[m as int], beta) == commit_spec(alpha)
}

/// The commitment to a field element.
pub fn commit(value: &Scalar) -> (p: G1Point)
    ensures
        p@ == commit_spec(value.value()),
{
    let g = g1_generator();
    g1_mul(&g, value)
}

/// The commitment to the value at `x` of the polynomial that a row commits
/// to, or `None` for a row without entries.
pub fn row_eval(row: &Vec<G1Point>, x: &Scalar) -> (p: Option<G1Point>)
    ensures
        p.is_some() == (row@.len() > 0),
        p.is_some() ==> p.unwrap()@ == row_eval_spec(row_view(row@), x.value()),
{
    if row.len() == 0 {
        return None;
    }
    let ghost r = row_view(row@);
    let mut k: usize = row.len() - 1;
    let mut acc = row[k];
    assert(r.subrange(k as int, r.len() as int).len() == 1);
    while k > 0
        invariant
            k < row.len(),
            r == row_view(row@),
            acc@ == row_eval_spec(r.subrange(k as int, r.len() as int), x.value()),
        decreases k,
    {
        k -= 1;
        proof {
            let tail = r.subrange(k as int, r.len() as int);
            assert(tail.drop_first() =~= r.subrange(k + 1, r.len() as int));
            assert(tail[0] == row@[k as int]@);
            assert(tail.len() >= 2);
        }
        acc = g1_add(&row[k], &g1_mul(&acc, x));
    }
    assert(r.subrange(0, r.len() as int) =~= r);
    Some(acc)
}

/// The commitment matrix of a dealer.
#[derive(Clone, Debug)]
pub struct Commitment {
    pub rows: Vec<Vec<G1Point>>,
}

impl View for Commitment {
    type V = CommitmentView;

    open spec fn view(&self) -> CommitmentView {
        Seq::new(self.rows@.len(), |m: int| row_view(self.rows@[m]@))
    }
}

impl Commitment {
    /// Whether the matrix has a row of `t + 1` entries for each of `n`
    /// participants.
    pub fn is_well_shaped(&self, n: u32, t: u32) -> (ok: bool)
        ensures
            ok == well_shaped(self@, n as nat, t as nat),
    {
        if self.rows.len() != n as usize {
            return false;
        }
        let mut m: usize = 0;
        while m < self.rows.len()
            invariant
                m <= self.rows.len(),
                forall|a: int| 0 <= a < m ==> (#[trigger] self@[a]).len() == t + 1,
            decreases self.rows.len() - m,
        {
            if self.rows[m].len() as u64 != t as u64 + 1 {
                assert(self@[m as int].len() != t + 1);
                return false;
            }
            m += 1;
        }
        true
    }

    /// Whether two matrices have the same entries.
    pub fn equals(&self, other: &Commitment) -> (same: bool)
        ensures
            same == (self@ == other@),
    {
        if self.rows.len() != other.rows.len() {
            return false;
        }
        let mut m: usize = 0;
        while m < self.rows.len()
            invariant
                m <= self.rows.len(),
                self.rows.len() == other.rows.len(),
                forall|a: int| 0 <= a < m ==> self@[a] == other@[a],
            decreases self.rows.len() - m,
        {
            let left = &self.rows[m];
            let right = &other.rows[m];
            if left.len() != right.len() {
                assert(self@[m as int].len() != other@[m as int].len());
                return false;
            }
            let mut k: usize = 0;
            while k < left.len()
                invariant
                    k <= left.len(),
                    left.len() == right.len(),
                    m < self.rows.len(),
                    self.rows.len() == other.rows.len(),
                    left@ == self.rows@[m as int]@,
                    right@ == other.rows@[m as int]@,
                    forall|b: int| 0 <= b < k ==> left@[b]@ == right@[b]@,
                decreases left.len() - k,
            {
                if !left[k].equals(&right[k]) {
                    assert(self@[m as int][k as int] != other@[m as int][k as int]);
                    return false;
                }
                k += 1;
            }
            assert(self@[m as int] =~= other@[m as int]);
            m += 1;
        }
        assert(self@ =~= other@);
        true
    }

    /// A copy of the matrix.
    pub fn duplicate(&self) -> (c: Commitment)
        ensures
            c@ == self@,
    {
        let mut rows: Vec<Vec<G1Point>> = Vec::new();
        let mut m: usize = 0;
        while m < self.rows.len()
            invariant
                m <= self.rows.len(),
                rows@.len() == m,
                forall|a: int| 0 <= a < m ==> row_view(rows@[a]@) == row_view(self.rows@[a]@),
            decreases self.rows.len() - m,
        {
            let source = &self.rows[m];
            let mut row: Vec<G1Point> = Vec::new();
            let mut k: usize = 0;
            while k < source.len()
                invariant
                    k <= source.len(),
                    row@.len() == k,
                    forall|b: int| 0 <= b < k ==> row@[b] == source@[b],
                decreases source.len() - k,
            {
                row.push(source[k]);
                k += 1;
            }
            assert(row_view(row@) =~= row_view(source@));
            rows.push(row);
            m += 1;
        }
        let c = Commitment { rows };
        assert(c@ =~= self@);
        c
    }

    /// Whether `alpha` is the value at `beta` of the polynomial that row `m`
    /// commits to, in a matrix for `n` participants and threshold `t`.
    pub fn verify_evaluation(&self, n: u32, t: u32, m: u32, beta: &Scalar, alpha: &Scalar) -> (ok:
        bool)
        ensures
            ok == evaluation_ok(
                self@,
                n as nat,
                t as nat,
                m as nat,
                beta.value(),
                alpha.value(),
            ),
    {
        if !self.is_well_shaped(n, t) || m >= n {
            return false;
        }
        let row = &self.rows[m as usize];
        assert(self@[m as int].len() == t + 1);
        match row_eval(row, beta) {
            Some(left) => {
                let right = commit(alpha);
                left.equals(&right)
            },
            None => false,
        }
    }
}

} // verus!
