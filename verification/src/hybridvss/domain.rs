//! The evaluation domain: the public field element of each participant.

use crate::bls12_381::fr::{
    fr_inverse, fr_mul, fr_sub, invertible, lemma_sub_mod_zero, modulus, mul_mod, sub_mod, Scalar,
};
use ark_ff::PrimeField;
use ark_poly::EvaluationDomain;
use vstd::prelude::*;

verus! {

/// The generator of the smallest multiplicative subgroup of two-power order
/// that has room for `n` elements, if the field has such a subgroup.
pub uninterp spec fn domain_generator_spec(n: nat) -> Option<nat>;

/// `EvaluationDomain::new` of ark-poly's `Radix2EvaluationDomain` over the
/// scalar field, for `n` coefficients: its `group_gen`, or `None` where the
/// field has no subgroup of that size.
#[verifier::external_body]
fn domain_generator(n: u32) -> (g: Option<Scalar>)
    ensures
        match g {
            Some(w) => domain_generator_spec(n as nat) == Some(w.value()),
            None => domain_generator_spec(n as nat).is_none(),
        },
{
    let domain = ark_poly::Radix2EvaluationDomain::<ark_bls12_381::Fr>::new(n as usize)?;
    let l = domain.group_gen.into_repr().0;
    Some(Scalar { l0: l[0], l1: l[1], l2: l[2], l3: l[3] })
}

/// `base` to the power `e`, in the field.
pub open spec fn pow_mod(base: nat, e: nat) -> nat
    decreases e,
{
    if e == 0 {
        1
    } else {
        mul_mod(pow_mod(base, (e - 1) as nat), base)
    }
}

/// The first `n` powers of `generator`, from the power zero on.
pub open spec fn powers(generator: nat, n: nat) -> Seq<nat> {
    Seq::new(n, |k: int| pow_mod(generator, k as nat))
}

/// No point is zero and no two points are equal.
pub open spec fn distinct_nonzero(points: Seq<nat>) -> bool {
    &&& forall|k: int| 0 <= k < points.len() ==> points[k] != 0
    &&& forall|j: int, k: int| 0 <= j < k < points.len() ==> points[j] != points[k]
}

/// The points are below the modulus, and the difference of any two of them
/// has an inverse in the field.
pub open spec fn nodes_ok(xs: Seq<nat>) -> bool {
    &&& forall|k: int| 0 <= k < xs.len() ==> #[trigger] xs[k] < modulus()
    &&& forall|j: int, m: int|
        0 <= j < xs.len() && 0 <= m < xs.len() && j != m ==> invertible(
            sub_mod(#[trigger] xs[j], #[trigger] xs[m]),
        )
}

/// The points that a domain for `n` participants has, if there is one: the
/// powers of the subgroup's generator, where they are distinct and not zero.
pub open spec fn domain_spec(n: nat) -> Option<Seq<nat>> {
    match domain_generator_spec(n) {
        Some(generator) => if distinct_nonzero(powers(generator, n)) {
            Some(powers(generator, n))
        } else {
            None
        },
        None => None,
    }
}

/// The representatives of a list of field elements.
pub open spec fn values(s: Seq<Scalar>) -> Seq<nat> {
    Seq::new(s.len(), |k: int| s[k].value())
}

/// The evaluation points of a sharing instance: the point at index `k` is the
/// public identifier of participant `k`.
#[derive(Debug)]
pub struct Domain {
    points: Vec<Scalar>,
}

impl View for Domain {
    type V = Seq<nat>;

    closed spec fn view(&self) -> Seq<nat> {
        values(self.points@)
    }
}

impl Domain {
    #[verifier::type_invariant]
    pub closed spec fn inv(self) -> bool {
        &&& distinct_nonzero(values(self.points@))
        &&& nodes_ok(values(self.points@))
    }

    /// The points of a domain that the program holds are distinct and not
    /// zero, and their differences have inverses.
    pub proof fn lemma_distinct_nonzero(self)
        requires
            self.inv(),
        ensures
            distinct_nonzero(self@),
            nodes_ok(self@),
    {
    }

    /// The domain without any point.
    pub fn empty() -> (d: Domain)
        ensures
            d@.len() == 0,
    {
        Domain { points: Vec::new() }
    }

    /// The domain for `n` participants, if the field offers one.
    pub fn new(n: u32) -> (d: Option<Domain>)
        ensures
            match d {
                Some(domain) => domain_spec(n as nat) == Some(domain@),
                None => domain_spec(n as nat).is_none(),
            },
    {
        let generator = match domain_generator(n) {
            Some(g) => g,
            None => {
                return None;
            },
        };
        let ghost g = generator.value();
        let mut points: Vec<Scalar> = Vec::new();
        let mut current = Scalar::one();
        let mut k: u32 = 0;
        while k < n
            invariant
                k <= n,
                g == generator.value(),
                points@.len() == k,
                current.value() == pow_mod(g, k as nat),
                values(points@) =~= powers(g, k as nat),
            decreases n - k,
        {
            let ghost before = points@;
            points.push(current);
            proof {
                assert forall|a: int| 0 <= a < k + 1 implies values(points@)[a] == powers(
                    g,
                    (k + 1) as nat,
                )[a] by {
                    if a < k {
                        assert(points@[a] == before[a]);
                        assert(values(before)[a] == powers(g, k as nat)[a]);
                    }
                }
            }
            current = fr_mul(&current, &generator);
            k += 1;
        }
        if all_distinct_nonzero(&points) {
            Some(Domain { points })
        } else {
            None
        }
    }

    /// The number of points.
    pub fn len(&self) -> (n: usize)
        ensures
            n == self@.len(),
    {
        self.points.len()
    }

    /// The point of participant `k`.
    pub fn point(&self, k: usize) -> (p: Scalar)
        requires
            k < self@.len(),
        ensures
            p.value() == self@[k as int],
    {
        self.points[k]
    }

    /// A copy of the domain.
    pub fn duplicate(&self) -> (d: Domain)
        ensures
            d@ == self@,
    {
        proof {
            use_type_invariant(self);
        }
        let mut points: Vec<Scalar> = Vec::new();
        let mut k: usize = 0;
        while k < self.points.len()
            invariant
                k <= self.points.len(),
                points@ == self.points@.subrange(0, k as int),
            decreases self.points.len() - k,
        {
            points.push(self.points[k]);
            k += 1;
            assert(points@ =~= self.points@.subrange(0, k as int));
        }
        assert(self.points@.subrange(0, self.points.len() as int) =~= self.points@);
        Domain { points }
    }
}

/// Whether no element is zero and no two elements are equal. Where that
/// is so, the difference of any two elements was inverted, and so has an
/// inverse.
pub fn all_distinct_nonzero(points: &Vec<Scalar>) -> (ok: bool)
    ensures
        ok == distinct_nonzero(values(points@)),
        ok ==> nodes_ok(values(points@)),
{
    let ghost v = values(points@);
    let mut k: usize = 0;
    while k < points.len()
        invariant
            k <= points.len(),
            v == values(points@),
            forall|a: int| 0 <= a < k ==> v[a] != 0 && #[trigger] v[a] < modulus(),
            forall|a: int, b: int|
                0 <= a < k && 0 <= b < points.len() && a != b ==> v[a] != v[b] && invertible(
                    sub_mod(#[trigger] v[a], #[trigger] v[b]),
                ),
        decreases points.len() - k,
    {
        let x_k = &points[k];
        proof {
            use_type_invariant(x_k);
            x_k.lemma_value_bound();
        }
        if x_k.is_zero() {
            assert(v[k as int] == 0);
            return false;
        }
        let mut j: usize = 0;
        while j < points.len()
            invariant
                j <= points.len(),
                k < points.len(),
                v == values(points@),
                x_k.value() == v[k as int],
                v[k as int] < modulus(),
                forall|b: int|
                    0 <= b < j && b != k ==> v[k as int] != v[b] && invertible(
                        sub_mod(v[k as int], #[trigger] v[b]),
                    ),
            decreases points.len() - j,
        {
            if j != k {
                let x_j = &points[j];
                proof {
                    use_type_invariant(x_j);
                    x_j.lemma_value_bound();
                    lemma_sub_mod_zero(x_k.value(), x_j.value());
                }
                let difference = fr_sub(x_k, x_j);
                match fr_inverse(&difference) {
                    Some(_) => {},
                    None => {
                        assert(v[k as int] == v[j as int]);
                        assert(!distinct_nonzero(v)) by {
                            if k < j {
                                assert(v[k as int] == v[j as int]);
                            } else {
                                assert(v[j as int] == v[k as int]);
                            }
                        }
                        return false;
                    },
                }
            }
            j += 1;
        }
        k += 1;
    }
    true
}

} // verus!
