//! Interpolation is exact: through the values of a polynomial at no fewer
//! nodes than the polynomial has coefficients, Lagrange's formula gives the
//! polynomial back. It follows that a participant interpolates its own
//! polynomial from what the others echo, and that the shares of a dealt
//! secret reconstruct the secret.
//!
//! Nothing is assumed of the modulus: what is asked of the nodes is that
//! their differences have inverses, which an evaluation domain has found to
//! be so when it was made.

use crate::bls12_381::fr::{add_mod, inv_mod, invertible, is_inverse, modulus, mul_mod, sub_mod};
use crate::hybridvss::domain::nodes_ok;
use crate::bls12_381::reduction::{
    lemma_add_reduce, lemma_mul_reduce, lemma_reduce_add_congruent, lemma_reduce_bound,
    lemma_reduce_mul_congruent, lemma_reduce_small, lemma_sub_reduce, reduce,
};
use crate::hybridvss::bivariate::{
    row_polynomial_spec, shares_secret, square, symmetric, Coefficients,
};
use crate::hybridvss::model::{
    interpolated, nodes_of, points_wf, ready_messages, reconstructed, shared_message, used,
    values_of,
    Evaluation, Setup,
};
use crate::hybridvss::commitment::CommitmentView;
use crate::hybridvss::poly::{
    basis, eval_spec, interpolate_spec, interpolate_upto, numerator_upto, weight_upto,
};
use vstd::prelude::*;

verus! {

/// Every entry is below the modulus.
pub open spec fn reduced(s: Seq<nat>) -> bool {
    forall|k: int| 0 <= k < s.len() ==> #[trigger] s[k] < modulus()
}

/// The value of a polynomial is below the modulus.
pub proof fn lemma_eval_bound(p: Seq<nat>, x: nat)
    ensures
        eval_spec(p, x) < modulus(),
    decreases p.len(),
{
    if p.len() > 0 {
        lemma_reduce_bound((p[0] + mul_mod(x, eval_spec(p.drop_first(), x))) as int);
    }
}

/// The quotient of a polynomial by `x - a`: the coefficient of `x^i` is the
/// value at `a` of the polynomial without its first `i + 1` coefficients.
pub open spec fn quotient(p: Seq<nat>, a: nat) -> Seq<nat>
    decreases p.len(),
{
    if p.len() <= 1 {
        Seq::empty()
    } else {
        seq![eval_spec(p.drop_first(), a)] + quotient(p.drop_first(), a)
    }
}

/// The quotient has one coefficient less than the polynomial.
pub proof fn lemma_quotient_len(p: Seq<nat>, a: nat)
    ensures
        quotient(p, a).len() == if p.len() == 0 {
            0
        } else {
            p.len() - 1
        },
    decreases p.len(),
{
    if p.len() > 1 {
        lemma_quotient_len(p.drop_first(), a);
    }
}

/// Division with remainder by `x - a`: the value of a polynomial at `x` is
/// its value at `a` plus `x - a` times the value of the quotient at `x`.
pub proof fn lemma_division(p: Seq<nat>, a: nat, x: nat)
    requires
        reduced(p),
        a < modulus(),
        x < modulus(),
    ensures
        eval_spec(p, x) == add_mod(
            eval_spec(p, a),
            mul_mod(sub_mod(x, a), eval_spec(quotient(p, a), x)),
        ),
    decreases p.len(),
{
    let q = quotient(p, a);
    let ai = a as int;
    let xi = x as int;
    lemma_reduce_small(a);
    lemma_reduce_small(x);
    lemma_reduce_small(0);
    lemma_sub_reduce(xi, ai);
    if p.len() == 0 {
        lemma_mul_reduce(xi - ai, 0);
        lemma_add_reduce(0, (xi - ai) * 0);
        assert(0 + (xi - ai) * 0 == 0) by (nonlinear_arith);
    } else {
        let c0 = p[0] as int;
        let rest = p.drop_first();
        let qq = quotient(rest, a);
        assert(reduced(rest)) by {
            assert forall|k: int| 0 <= k < rest.len() implies #[trigger] rest[k] < modulus() by {
                assert(rest[k] == p[k + 1]);
            }
        }
        lemma_division(rest, a, x);
        let e = eval_spec(rest, a) as int;
        let ex = eval_spec(rest, x) as int;
        let big_q = eval_spec(qq, x) as int;
        lemma_eval_bound(rest, a);
        lemma_eval_bound(rest, x);
        lemma_eval_bound(qq, x);
        lemma_reduce_small(p[0]);
        lemma_reduce_small(e as nat);
        lemma_reduce_small(ex as nat);
        lemma_reduce_small(big_q as nat);
        if p.len() == 1 {
            assert(rest =~= Seq::<nat>::empty());
            assert(q =~= Seq::<nat>::empty());
            // c0 + x * 0 against (c0 + a * 0) + (x - a) * 0.
            lemma_mul_reduce(xi, 0);
            lemma_add_reduce(c0, xi * 0);
            lemma_mul_reduce(ai, 0);
            lemma_add_reduce(c0, ai * 0);
            lemma_mul_reduce(xi - ai, 0);
            lemma_add_reduce(c0 + ai * 0, (xi - ai) * 0);
            assert(c0 + xi * 0 == c0 + ai * 0 + (xi - ai) * 0) by (nonlinear_arith);
        } else {
            assert(q.drop_first() =~= qq);
            assert(q[0] == e);
            // The induction hypothesis, as integers: ex = e + (x - a) * Q.
            lemma_mul_reduce(xi - ai, big_q);
            lemma_add_reduce(e, (xi - ai) * big_q);
            assert(ex == reduce(e + (xi - ai) * big_q));
            // The left side: c0 + x * ex.
            lemma_mul_reduce(xi, e + (xi - ai) * big_q);
            lemma_add_reduce(c0, xi * (e + (xi - ai) * big_q));
            assert(eval_spec(p, x) == reduce(c0 + xi * (e + (xi - ai) * big_q)));
            // The value of the quotient: e + x * Q.
            lemma_mul_reduce(xi, big_q);
            lemma_add_reduce(e, xi * big_q);
            assert(eval_spec(q, x) == reduce(e + xi * big_q));
            // The right side: (c0 + a * e) + (x - a) * (e + x * Q).
            lemma_mul_reduce(ai, e);
            lemma_add_reduce(c0, ai * e);
            lemma_mul_reduce(xi - ai, e + xi * big_q);
            lemma_add_reduce(c0 + ai * e, (xi - ai) * (e + xi * big_q));
            assert(c0 + xi * (e + (xi - ai) * big_q) == c0 + ai * e + (xi - ai) * (e + xi * big_q))
                by (nonlinear_arith);
        }
    }
}

/// The chosen inverse of a number that has one is an inverse of it.
pub proof fn lemma_inverse(d: nat)
    requires
        invertible(d),
    ensures
        is_inverse(d, inv_mod(d)),
        reduce((d * inv_mod(d)) as int) == 1,
{
}

/// The nodes without the last are nodes of the same kind.
pub proof fn lemma_nodes_prefix(xs: Seq<nat>)
    requires
        nodes_ok(xs),
        xs.len() > 0,
    ensures
        nodes_ok(xs.drop_last()),
        reduced(xs),
{
    let prefix = xs.drop_last();
    assert forall|j: int, m: int|
        0 <= j < prefix.len() && 0 <= m < prefix.len() && j != m implies invertible(
        sub_mod(#[trigger] prefix[j], #[trigger] prefix[m]),
    ) by {
        assert(prefix[j] == xs[j] && prefix[m] == xs[m]);
    }
    assert forall|k: int| 0 <= k < prefix.len() implies #[trigger] prefix[k] < modulus() by {
        assert(prefix[k] == xs[k]);
    }
}

/// The product of `x - xs[m]` over all `m` below `upto`.
pub open spec fn full_product(xs: Seq<nat>, x: nat, upto: int) -> nat {
    numerator_upto(xs, -1, x, upto)
}

/// Products of differences are below the modulus.
pub proof fn lemma_numerator_bound(xs: Seq<nat>, j: int, x: nat, upto: int)
    ensures
        numerator_upto(xs, j, x, upto) < modulus(),
    decreases upto,
{
    if upto > 0 {
        lemma_numerator_bound(xs, j, x, upto - 1);
        if upto - 1 != j {
            lemma_reduce_bound(
                (numerator_upto(xs, j, x, upto - 1) * sub_mod(x, xs[upto - 1])) as int,
            );
        }
    }
}

/// Products of inverses are below the modulus.
pub proof fn lemma_weight_bound(xs: Seq<nat>, j: int, upto: int)
    ensures
        weight_upto(xs, j, upto) < modulus(),
    decreases upto,
{
    if upto > 0 {
        lemma_weight_bound(xs, j, upto - 1);
        if upto - 1 != j {
            lemma_reduce_bound(
                (weight_upto(xs, j, upto - 1) * inv_mod(sub_mod(xs[j], xs[upto - 1]))) as int,
            );
        }
    }
}

/// The product of the differences from the nodes below `upto` depends on
/// those nodes only.
pub proof fn lemma_numerator_prefix(xs: Seq<nat>, ys: Seq<nat>, j: int, x: nat, upto: int)
    requires
        forall|m: int| 0 <= m < upto ==> xs[m] == ys[m],
    ensures
        numerator_upto(xs, j, x, upto) == numerator_upto(ys, j, x, upto),
    decreases upto,
{
    if upto > 0 {
        lemma_numerator_prefix(xs, ys, j, x, upto - 1);
    }
}

/// The product of the inverses for the nodes below `upto` depends on those
/// nodes and on the node `j` only.
pub proof fn lemma_weight_prefix(xs: Seq<nat>, ys: Seq<nat>, j: int, upto: int)
    requires
        forall|m: int| 0 <= m < upto ==> xs[m] == ys[m],
        xs[j] == ys[j],
    ensures
        weight_upto(xs, j, upto) == weight_upto(ys, j, upto),
    decreases upto,
{
    if upto > 0 {
        lemma_weight_prefix(xs, ys, j, upto - 1);
    }
}

/// Leaving out a node that is not below `upto` leaves out nothing.
pub proof fn lemma_numerator_nothing_left_out(xs: Seq<nat>, j: int, x: nat, upto: int)
    requires
        j < 0 || upto <= j,
    ensures
        numerator_upto(xs, j, x, upto) == full_product(xs, x, upto),
    decreases upto,
{
    if upto > 0 {
        lemma_numerator_nothing_left_out(xs, j, x, upto - 1);
    }
}

/// The product that leaves out the node `j`, times `x - xs[j]`, is the
/// product over all nodes.
pub proof fn lemma_numerator_completed(xs: Seq<nat>, j: int, x: nat, upto: int)
    requires
        0 <= j < upto <= xs.len(),
        reduced(xs),
        x < modulus(),
    ensures
        reduce(numerator_upto(xs, j, x, upto) * (x - xs[j])) == full_product(xs, x, upto),
    decreases upto,
{
    let xi = x as int;
    let own = xs[j] as int;
    lemma_reduce_small(x);
    lemma_reduce_small(xs[j]);
    let before = numerator_upto(xs, j, x, upto - 1) as int;
    lemma_numerator_bound(xs, j, x, upto - 1);
    lemma_reduce_small(before as nat);
    let full_before = full_product(xs, x, upto - 1) as int;
    lemma_numerator_bound(xs, -1, x, upto - 1);
    lemma_reduce_small(full_before as nat);
    if upto - 1 == j {
        lemma_numerator_nothing_left_out(xs, j, x, upto - 1);
        // full(upto) = full(upto - 1) * (x - xs[j]).
        lemma_sub_reduce(xi, own);
        lemma_mul_reduce(full_before, xi - own);
    } else {
        lemma_numerator_completed(xs, j, x, upto - 1);
        let last = xs[upto - 1] as int;
        lemma_reduce_small(xs[upto - 1]);
        lemma_sub_reduce(xi, last);
        // num(upto) = num(upto - 1) * (x - last).
        lemma_mul_reduce(before, xi - last);
        // num(upto) * (x - own) = (before * (x - own)) * (x - last).
        lemma_reduce_mul_congruent(
            numerator_upto(xs, j, x, upto) as int,
            before * (xi - last),
            xi - own,
        );
        lemma_numerator_bound(xs, j, x, upto);
        lemma_reduce_small(numerator_upto(xs, j, x, upto));
        assert(before * (xi - last) * (xi - own) == before * (xi - own) * (xi - last))
            by (nonlinear_arith);
        lemma_reduce_mul_congruent(before * (xi - own), full_before, xi - last);
        lemma_mul_reduce(full_before, xi - last);
    }
}

/// The product of the differences of a node from the nodes below `upto`,
/// times the product of their inverses, is one.
pub proof fn lemma_product_of_inverses(xs: Seq<nat>, j: int, upto: int)
    requires
        0 <= upto <= j < xs.len(),
        nodes_ok(xs),
    ensures
        reduce((full_product(xs, xs[j], upto) * weight_upto(xs, j, upto)) as int) == 1,
    decreases upto,
{
    lemma_reduce_small(1);
    if upto > 0 {
        lemma_product_of_inverses(xs, j, upto - 1);
        let a = xs[j];
        let last = xs[upto - 1];
        let dn = sub_mod(a, last);
        let un = inv_mod(dn);
        lemma_inverse(dn);
        let d = dn as int;
        let u = un as int;
        let n = full_product(xs, a, upto - 1) as int;
        let w = weight_upto(xs, j, upto - 1) as int;
        lemma_numerator_bound(xs, -1, a, upto - 1);
        lemma_weight_bound(xs, j, upto - 1);
        lemma_reduce_small(n as nat);
        lemma_reduce_small(w as nat);
        lemma_reduce_bound(a - last);
        lemma_reduce_small(dn);
        lemma_reduce_small(un);
        // full(upto) = n * d and weight(upto) = w * u.
        lemma_mul_reduce(n, d);
        lemma_mul_reduce(w, u);
        lemma_mul_reduce(n * d, w * u);
        assert((n * d) * (w * u) == (n * w) * (d * u)) by (nonlinear_arith);
        lemma_mul_reduce(n * w, d * u);
        lemma_mul_reduce(1, 1);
    }
}

/// The sum of the values of a function of the indices below `n`.
pub open spec fn isum(f: spec_fn(int) -> int, n: int) -> int
    decreases n,
{
    if n <= 0 {
        0
    } else {
        isum(f, n - 1) + f(n - 1)
    }
}

/// Functions whose values have the same representatives have sums with the
/// same representative.
pub proof fn lemma_isum_congruent(f: spec_fn(int) -> int, g: spec_fn(int) -> int, n: int)
    requires
        forall|j: int| 0 <= j < n ==> reduce(#[trigger] f(j)) == reduce(#[trigger] g(j)),
    ensures
        reduce(isum(f, n)) == reduce(isum(g, n)),
    decreases n,
{
    if n > 0 {
        lemma_isum_congruent(f, g, n - 1);
        lemma_add_reduce(isum(f, n - 1), f(n - 1));
        lemma_add_reduce(isum(g, n - 1), g(n - 1));
    }
}

/// The sum of `g + c h` is the sum of `g` plus `c` times the sum of `h`.
pub proof fn lemma_isum_linear(
    f: spec_fn(int) -> int,
    g: spec_fn(int) -> int,
    h: spec_fn(int) -> int,
    c: int,
    n: int,
)
    requires
        forall|j: int| 0 <= j < n ==> #[trigger] f(j) == g(j) + c * h(j),
    ensures
        isum(f, n) == isum(g, n) + c * isum(h, n),
    decreases n,
{
    if n > 0 {
        lemma_isum_linear(f, g, h, c, n - 1);
        let a = isum(h, n - 1);
        let b = h(n - 1);
        assert(c * (a + b) == c * a + c * b) by (nonlinear_arith);
    } else {
        assert(c * 0 == 0) by (nonlinear_arith);
    }
}

/// The sum of `c g + d h` is `c` times the sum of `g` plus `d` times the sum
/// of `h`.
pub proof fn lemma_isum_combination(
    f: spec_fn(int) -> int,
    g: spec_fn(int) -> int,
    h: spec_fn(int) -> int,
    c: int,
    d: int,
    n: int,
)
    requires
        forall|j: int| 0 <= j < n ==> #[trigger] f(j) == c * g(j) + d * h(j),
    ensures
        isum(f, n) == c * isum(g, n) + d * isum(h, n),
    decreases n,
{
    if n > 0 {
        lemma_isum_combination(f, g, h, c, d, n - 1);
        let a = isum(g, n - 1);
        let b = g(n - 1);
        let a2 = isum(h, n - 1);
        let b2 = h(n - 1);
        assert(c * (a + b) == c * a + c * b) by (nonlinear_arith);
        assert(d * (a2 + b2) == d * a2 + d * b2) by (nonlinear_arith);
    } else {
        assert(c * 0 == 0) by (nonlinear_arith);
        assert(d * 0 == 0) by (nonlinear_arith);
    }
}

/// The sum of a function that is zero is zero.
pub proof fn lemma_isum_zero(f: spec_fn(int) -> int, n: int)
    requires
        forall|j: int| 0 <= j < n ==> #[trigger] f(j) == 0,
    ensures
        isum(f, n) == 0,
    decreases n,
{
    if n > 0 {
        lemma_isum_zero(f, n - 1);
    }
}

/// The sums of functions that agree below `n` agree.
pub proof fn lemma_isum_same(f: spec_fn(int) -> int, g: spec_fn(int) -> int, n: int)
    requires
        forall|j: int| 0 <= j < n ==> #[trigger] f(j) == #[trigger] g(j),
    ensures
        isum(f, n) == isum(g, n),
    decreases n,
{
    if n > 0 {
        lemma_isum_same(f, g, n - 1);
    }
}

/// The values of the basis polynomials of the nodes at `x`, by index.
pub open spec fn basis_fn(xs: Seq<nat>, x: nat) -> spec_fn(int) -> int {
    |j: int| basis(xs, j, x) as int
}

/// The weights of the nodes, by index: for each node the product of the
/// inverses of its differences from the other nodes.
pub open spec fn weight_fn(xs: Seq<nat>) -> spec_fn(int) -> int {
    |j: int| weight_upto(xs, j, xs.len() as int) as int
}

/// The terms of Lagrange's formula for the polynomial `p`, by index: the
/// value of `p` at a node times the value of the node's basis polynomial.
pub open spec fn term_fn(xs: Seq<nat>, p: Seq<nat>, x: nat) -> spec_fn(int) -> int {
    |j: int| (eval_spec(p, xs[j]) * basis(xs, j, x)) as int
}

/// The values of a polynomial at the nodes.
pub open spec fn values_at(p: Seq<nat>, xs: Seq<nat>) -> Seq<nat> {
    Seq::new(xs.len(), |j: int| eval_spec(p, xs[j]))
}

/// What a further node does to the basis polynomial of an earlier node `j`:
/// with `b` the value of the basis polynomial without the new node `a`, the
/// new value is `b (x - a) / (xs[j] - a)`, which is `b` plus the product of
/// all `x - xs[m]` for the earlier nodes times the new weight of `j`; and
/// `xs[j] - a` times the new value is `b (x - a)`.
pub proof fn lemma_basis_step(xs: Seq<nat>, j: int, x: nat)
    requires
        nodes_ok(xs),
        x < modulus(),
        0 <= j < xs.len() - 1,
    ensures
        reduce(basis(xs, j, x) as int) == reduce(
            (basis(xs.drop_last(), j, x) + full_product(xs.drop_last(), x, xs.len() - 1)
                * weight_upto(xs, j, xs.len() as int)) as int,
        ),
        reduce((xs[j] - xs.last()) * basis(xs, j, x)) == reduce(
            basis(xs.drop_last(), j, x) * (x - xs.last()),
        ),
{
    let k = xs.len() - 1;
    let prefix = xs.drop_last();
    let a = xs[k] as int;
    let own = xs[j] as int;
    let xi = x as int;
    assert(prefix[j] == xs[j]);
    lemma_nodes_prefix(xs);
    lemma_reduce_small(x);
    lemma_reduce_small(xs[k]);
    lemma_reduce_small(xs[j]);
    // The parts: n and v for the earlier nodes, u for the new node.
    let n = numerator_upto(prefix, j, x, k) as int;
    let v = weight_upto(prefix, j, k) as int;
    let dn = sub_mod(xs[j], xs[k]);
    let un = inv_mod(dn);
    let u = un as int;
    let d = own - a;
    lemma_inverse(dn);
    lemma_sub_reduce(own, a);
    lemma_reduce_small(un);
    lemma_mul_reduce(d, u);
    assert(reduce(d * u) == 1);
    lemma_numerator_prefix(xs, prefix, j, x, k);
    lemma_weight_prefix(xs, prefix, j, k);
    lemma_numerator_bound(prefix, j, x, k);
    lemma_weight_bound(prefix, j, k);
    lemma_reduce_small(n as nat);
    lemma_reduce_small(v as nat);
    // The new basis value: (n (x - a)) (v u).
    lemma_sub_reduce(xi, a);
    lemma_mul_reduce(n, xi - a);
    lemma_mul_reduce(v, u);
    lemma_mul_reduce(n * (xi - a), v * u);
    let new_b = basis(xs, j, x) as int;
    assert(new_b == reduce(n * (xi - a) * (v * u)));
    lemma_reduce_bound(n * (xi - a) * (v * u));
    lemma_reduce_small(new_b as nat);
    // The old basis value: n v.
    let b = basis(prefix, j, x) as int;
    lemma_mul_reduce(n, v);
    assert(b == reduce(n * v));
    lemma_reduce_bound(n * v);
    lemma_reduce_small(b as nat);
    // The product over all earlier nodes: n (x - own).
    let big_n = full_product(prefix, x, k) as int;
    lemma_numerator_completed(prefix, j, x, k);
    assert(big_n == reduce(n * (xi - own)));
    lemma_numerator_bound(prefix, -1, x, k);
    lemma_reduce_small(big_n as nat);
    // The new weight: v u.
    let w = weight_upto(xs, j, xs.len() as int) as int;
    assert(w == reduce(v * u));
    lemma_reduce_bound(v * u);
    lemma_reduce_small(w as nat);
    // First claim: n (x - a) v u = n (x - own) v u + n v (d u), and d u is one.
    assert(n * (xi - a) * (v * u) == (n * (xi - own)) * (v * u) + (n * v) * (d * u))
        by (nonlinear_arith)
        requires
            d == own - a,
    ;
    lemma_mul_reduce(n * (xi - own), v * u);
    lemma_mul_reduce(big_n, w);
    lemma_reduce_mul_congruent(d * u, 1, n * v);
    assert((n * v) * 1 == n * v) by (nonlinear_arith);
    lemma_add_reduce((n * (xi - own)) * (v * u), (n * v) * (d * u));
    lemma_add_reduce(big_n * w, b);
    lemma_reduce_bound(big_n * w);
    lemma_reduce_small(reduce(big_n * w));
    assert(b + big_n * w == big_n * w + b);
    // Second claim: d (n (x - a) v u) = (n v (x - a)) (d u).
    lemma_reduce_mul_congruent(new_b, n * (xi - a) * (v * u), d);
    assert(d * (n * (xi - a) * (v * u)) == (n * v * (xi - a)) * (d * u)) by (nonlinear_arith);
    lemma_reduce_mul_congruent(d * u, 1, n * v * (xi - a));
    assert((n * v * (xi - a)) * 1 == n * v * (xi - a)) by (nonlinear_arith);
    lemma_reduce_mul_congruent(b, n * v, xi - a);
    assert((n * v) * (xi - a) == n * v * (xi - a)) by (nonlinear_arith);
}

/// The basis polynomial of the last node: the product of all `x - xs[m]` for
/// the earlier nodes times the weight of the last node.
pub proof fn lemma_basis_last(xs: Seq<nat>, x: nat)
    requires
        xs.len() > 0,
    ensures
        basis(xs, xs.len() - 1, x) == mul_mod(
            full_product(xs.drop_last(), x, xs.len() - 1),
            weight_upto(xs, xs.len() - 1, xs.len() as int),
        ),
{
    let k = xs.len() - 1;
    lemma_numerator_nothing_left_out(xs, k, x, k);
    lemma_numerator_prefix(xs, xs.drop_last(), -1, x, k);
}

/// The basis polynomial of an earlier node is zero at the last node.
pub proof fn lemma_basis_zero_at_last(xs: Seq<nat>, j: int)
    requires
        reduced(xs),
        0 <= j < xs.len() - 1,
    ensures
        basis(xs, j, xs.last()) == 0,
{
    let k = xs.len() - 1;
    let a = xs[k];
    lemma_reduce_small(a);
    lemma_sub_reduce(a as int, a as int);
    lemma_reduce_small(0);
    let n = numerator_upto(xs, j, a, k) as int;
    lemma_numerator_bound(xs, j, a, k);
    lemma_reduce_small(n as nat);
    lemma_mul_reduce(n, 0);
    assert(n * 0 == 0) by (nonlinear_arith);
    let w = weight_upto(xs, j, xs.len() as int) as int;
    lemma_weight_bound(xs, j, xs.len() as int);
    lemma_reduce_small(w as nat);
    lemma_mul_reduce(0, w);
    assert(0 * w == 0) by (nonlinear_arith);
}

/// The weights of two or more nodes add up to zero.
pub proof fn lemma_weights_vanish(xs: Seq<nat>)
    requires
        nodes_ok(xs),
        xs.len() >= 2,
    ensures
        reduce(isum(weight_fn(xs), xs.len() as int)) == 0,
    decreases xs.len(), 0int,
{
    let k = xs.len() - 1;
    let prefix = xs.drop_last();
    let a = xs[k];
    lemma_nodes_prefix(xs);
    lemma_unity(prefix, a);
    lemma_reduce_small(0);
    lemma_reduce_small(1);
    let big_n = full_product(prefix, a, k) as int;
    let old_b = basis_fn(prefix, a);
    let w = weight_fn(xs);
    let g = |j: int| old_b(j) + big_n * w(j);
    let zero = |j: int| 0int;
    assert forall|j: int| 0 <= j < k implies reduce(#[trigger] g(j)) == reduce(
        #[trigger] zero(j),
    ) by {
        lemma_basis_step(xs, j, a);
        lemma_basis_zero_at_last(xs, j);
    }
    lemma_isum_congruent(g, zero, k);
    lemma_isum_zero(zero, k);
    lemma_isum_linear(g, old_b, w, big_n, k);
    let s1 = isum(old_b, k);
    let sw = isum(w, k);
    assert(reduce(s1 + big_n * sw) == 0);
    // s1 is one: 1 + N sw is zero.
    lemma_reduce_add_congruent(s1, 1, big_n * sw);
    assert(reduce(1 + big_n * sw) == 0);
    // N times the last weight is one.
    let w_k = w(k);
    lemma_product_of_inverses(xs, k, k);
    lemma_numerator_prefix(xs, prefix, -1, a, k);
    assert(reduce(big_n * w_k) == 1);
    // N (sw + w_k) = N sw + N w_k, which is zero.
    assert(big_n * (sw + w_k) == big_n * w_k + big_n * sw) by (nonlinear_arith);
    lemma_reduce_add_congruent(big_n * w_k, 1, big_n * sw);
    assert(reduce(big_n * (sw + w_k)) == 0);
    // sw + w_k = (w_k N) (sw + w_k) = w_k (N (sw + w_k)), which is zero.
    let total = sw + w_k;
    assert(isum(w, k + 1) == total);
    assert(big_n * w_k == w_k * big_n) by (nonlinear_arith);
    lemma_reduce_mul_congruent(w_k * big_n, 1, total);
    assert(1 * total == total) by (nonlinear_arith);
    assert((w_k * big_n) * total == w_k * (big_n * total)) by (nonlinear_arith);
    lemma_reduce_mul_congruent(big_n * total, 0, w_k);
    assert(w_k * 0 == 0) by (nonlinear_arith);
}

/// The basis polynomials of one or more nodes add up to one, everywhere.
pub proof fn lemma_unity(xs: Seq<nat>, x: nat)
    requires
        nodes_ok(xs),
        xs.len() >= 1,
        x < modulus(),
    ensures
        reduce(isum(basis_fn(xs, x), xs.len() as int)) == 1,
    decreases xs.len(), 1int,
{
    let k = xs.len() - 1;
    let prefix = xs.drop_last();
    lemma_reduce_small(1);
    lemma_reduce_small(0);
    let new_b = basis_fn(xs, x);
    if k == 0 {
        assert(isum(new_b, 0) == 0);
        assert(numerator_upto(xs, 0, x, 0) == 1);
        assert(numerator_upto(xs, 0, x, 1) == 1);
        assert(weight_upto(xs, 0, 0) == 1);
        assert(weight_upto(xs, 0, 1) == 1);
        lemma_mul_reduce(1, 1);
        assert(basis(xs, 0, x) == 1);
        assert(isum(new_b, 1) == isum(new_b, 0) + new_b(0));
    } else {
        lemma_nodes_prefix(xs);
        lemma_unity(prefix, x);
        lemma_weights_vanish(xs);
        let big_n = full_product(prefix, x, k) as int;
        let old_b = basis_fn(prefix, x);
        let w = weight_fn(xs);
        let g = |j: int| old_b(j) + big_n * w(j);
        assert forall|j: int| 0 <= j < k implies reduce(#[trigger] new_b(j)) == reduce(
            #[trigger] g(j),
        ) by {
            lemma_basis_step(xs, j, x);
        }
        lemma_isum_congruent(new_b, g, k);
        lemma_isum_linear(g, old_b, w, big_n, k);
        let s1 = isum(old_b, k);
        let sw = isum(w, k);
        let w_k = w(k);
        // The last basis value is N w_k.
        lemma_basis_last(xs, x);
        lemma_numerator_bound(prefix, -1, x, k);
        lemma_weight_bound(xs, k, xs.len() as int);
        lemma_reduce_small(big_n as nat);
        lemma_reduce_small(w_k as nat);
        lemma_mul_reduce(big_n, w_k);
        assert(reduce(new_b(k)) == reduce(big_n * w_k)) by {
            lemma_reduce_bound(big_n * w_k);
            lemma_reduce_small(reduce(big_n * w_k));
        }
        // The sum: (s1 + N sw) + N w_k = s1 + N (sw + w_k).
        assert(isum(new_b, k + 1) == isum(new_b, k) + new_b(k));
        lemma_add_reduce(isum(new_b, k), new_b(k));
        lemma_add_reduce(isum(g, k), big_n * w_k);
        assert(s1 + big_n * sw + big_n * w_k == s1 + big_n * (sw + w_k)) by (nonlinear_arith);
        assert(isum(w, k + 1) == sw + w_k);
        lemma_reduce_mul_congruent(sw + w_k, 0, big_n);
        assert(big_n * 0 == 0) by (nonlinear_arith);
        lemma_add_reduce(s1, big_n * (sw + w_k));
        lemma_add_reduce(1, 0);
    }
}

/// The coefficients of a quotient are below the modulus.
pub proof fn lemma_quotient_reduced(p: Seq<nat>, a: nat)
    ensures
        reduced(quotient(p, a)),
    decreases p.len(),
{
    if p.len() > 1 {
        let rest = p.drop_first();
        lemma_quotient_reduced(rest, a);
        lemma_eval_bound(rest, a);
        let q = quotient(p, a);
        assert forall|k: int| 0 <= k < q.len() implies #[trigger] q[k] < modulus() by {
            if k > 0 {
                assert(q[k] == quotient(rest, a)[k - 1]);
            }
        }
    }
}

/// Lagrange's formula for the values of a polynomial at the nodes, with no
/// more coefficients than there are nodes, gives the value of the
/// polynomial, everywhere.
pub proof fn lemma_terms_add_up(xs: Seq<nat>, p: Seq<nat>, x: nat)
    requires
        nodes_ok(xs),
        reduced(p),
        x < modulus(),
        p.len() <= xs.len(),
    ensures
        reduce(isum(term_fn(xs, p, x), xs.len() as int)) == eval_spec(p, x),
    decreases xs.len(),
{
    lemma_reduce_small(0);
    lemma_reduce_small(1);
    if xs.len() == 0 {
        assert(p =~= Seq::<nat>::empty());
    } else {
        let k = xs.len() - 1;
        let prefix = xs.drop_last();
        let an = xs[k];
        let a = an as int;
        let xi = x as int;
        let q = quotient(p, an);
        lemma_nodes_prefix(xs);
        lemma_quotient_len(p, an);
        lemma_quotient_reduced(p, an);
        lemma_terms_add_up(prefix, q, x);
        lemma_unity(xs, x);
        lemma_reduce_small(x);
        lemma_reduce_small(an);
        let c0 = eval_spec(p, an) as int;
        lemma_eval_bound(p, an);
        lemma_reduce_small(c0 as nat);
        let terms = term_fn(xs, p, x);
        let new_b = basis_fn(xs, x);
        let old_terms = term_fn(prefix, q, x);
        let g = |j: int| c0 * new_b(j) + (xi - a) * old_terms(j);
        assert forall|j: int| 0 <= j < k implies reduce(#[trigger] terms(j)) == reduce(
            #[trigger] g(j),
        ) by {
            let own = xs[j] as int;
            let d = own - a;
            assert(prefix[j] == xs[j]);
            lemma_reduce_small(xs[j]);
            lemma_division(p, an, xs[j]);
            let big_q = eval_spec(q, xs[j]) as int;
            lemma_eval_bound(q, xs[j]);
            lemma_reduce_small(big_q as nat);
            lemma_sub_reduce(own, a);
            lemma_mul_reduce(d, big_q);
            lemma_add_reduce(c0, d * big_q);
            let value = eval_spec(p, xs[j]) as int;
            assert(value == reduce(c0 + d * big_q));
            let b_new = basis(xs, j, x) as int;
            let b_old = basis(prefix, j, x) as int;
            lemma_basis_step(xs, j, x);
            // value b_new = (c0 + d Q) b_new = c0 b_new + Q (d b_new).
            lemma_reduce_bound(c0 + d * big_q);
            lemma_reduce_small(value as nat);
            lemma_reduce_mul_congruent(value, c0 + d * big_q, b_new);
            assert((c0 + d * big_q) * b_new == c0 * b_new + big_q * (d * b_new))
                by (nonlinear_arith);
            lemma_reduce_mul_congruent(d * b_new, b_old * (xi - a), big_q);
            lemma_reduce_add_congruent(
                big_q * (d * b_new),
                big_q * (b_old * (xi - a)),
                c0 * b_new,
            );
            assert(big_q * (b_old * (xi - a)) == (xi - a) * (big_q * b_old)) by (nonlinear_arith);
        }
        lemma_isum_congruent(terms, g, k);
        lemma_isum_combination(g, new_b, old_terms, c0, xi - a, k);
        let sb = isum(new_b, k);
        let st = isum(old_terms, k);
        let b_k = new_b(k);
        // The last term is c0 b_k.
        assert(terms(k) == c0 * b_k);
        assert(isum(terms, k + 1) == isum(terms, k) + terms(k));
        lemma_add_reduce(isum(terms, k), c0 * b_k);
        lemma_add_reduce(isum(g, k), c0 * b_k);
        assert(c0 * sb + (xi - a) * st + c0 * b_k == c0 * (sb + b_k) + (xi - a) * st)
            by (nonlinear_arith);
        assert(isum(new_b, k + 1) == sb + b_k);
        // The basis values add up to one, and the old terms to the value of q.
        lemma_reduce_mul_congruent(sb + b_k, 1, c0);
        assert(c0 * 1 == c0) by (nonlinear_arith);
        let qx = eval_spec(q, x) as int;
        lemma_eval_bound(q, x);
        lemma_reduce_small(qx as nat);
        lemma_reduce_mul_congruent(st, qx, xi - a);
        lemma_reduce_add_congruent(c0 * (sb + b_k), c0, (xi - a) * st);
        lemma_reduce_add_congruent((xi - a) * st, (xi - a) * qx, c0);
        // Division at x.
        lemma_division(p, an, x);
        lemma_sub_reduce(xi, a);
        lemma_mul_reduce(xi - a, qx);
        lemma_add_reduce(c0, (xi - a) * qx);
    }
}

/// Lagrange's formula as a sum: the interpolated value is the representative
/// of the sum of the values times the basis values.
pub proof fn lemma_interpolate_is_sum(xs: Seq<nat>, ys: Seq<nat>, x: nat, upto: int)
    ensures
        interpolate_upto(xs, ys, x, upto) == reduce(
            isum(|j: int| (ys[j] * basis(xs, j, x)) as int, upto),
        ),
    decreases upto,
{
    let f = |j: int| (ys[j] * basis(xs, j, x)) as int;
    lemma_reduce_small(0);
    if upto > 0 {
        lemma_interpolate_is_sum(xs, ys, x, upto - 1);
        let term = ys[upto - 1] * basis(xs, upto - 1, x);
        assert(f(upto - 1) == term);
        assert(mul_mod(ys[upto - 1], basis(xs, upto - 1, x)) == reduce(term as int));
        lemma_add_reduce(isum(f, upto - 1), term as int);
    }
}

/// Interpolation is exact: through the values of a polynomial at nodes whose
/// differences have inverses, where the polynomial has no more coefficients
/// than there are nodes, Lagrange's formula gives the value of the
/// polynomial at every point.
pub proof fn lemma_interpolation_exact(xs: Seq<nat>, p: Seq<nat>, x: nat)
    requires
        nodes_ok(xs),
        reduced(p),
        x < modulus(),
        p.len() <= xs.len(),
    ensures
        interpolate_spec(xs, values_at(p, xs), x) == eval_spec(p, x),
{
    let ys = values_at(p, xs);
    let n = xs.len() as int;
    lemma_interpolate_is_sum(xs, ys, x, n);
    lemma_terms_add_up(xs, p, x);
    let f = |j: int| (ys[j] * basis(xs, j, x)) as int;
    lemma_isum_same(f, term_fn(xs, p, x), n);
}

/// Every coefficient of the bivariate polynomial is below the modulus.
pub open spec fn reduced_coefficients(phi: Coefficients) -> bool {
    forall|j: int| 0 <= j < phi.len() ==> reduced(#[trigger] phi[j])
}

/// The points of distinct participants are nodes whose differences have
/// inverses.
pub proof fn lemma_selected_nodes_ok(points: Seq<Evaluation>, domain: Seq<nat>, k: nat)
    requires
        nodes_ok(domain),
        points_wf(points, domain.len()),
        k <= points.len(),
    ensures
        nodes_ok(nodes_of(points, domain, k)),
{
    let xs = nodes_of(points, domain, k);
    assert forall|j: int, m: int|
        0 <= j < xs.len() && 0 <= m < xs.len() && j != m implies invertible(
        sub_mod(#[trigger] xs[j], #[trigger] xs[m]),
    ) by {
        let s_j = points[j].sender as int;
        let s_m = points[m].sender as int;
        if j < m {
            assert(points[j].sender != points[m].sender);
        } else {
            assert(points[m].sender != points[j].sender);
        }
        assert(invertible(sub_mod(domain[s_j], domain[s_m])));
    }
    assert forall|j: int| 0 <= j < xs.len() implies #[trigger] xs[j] < modulus() by {
        assert(domain[points[j].sender as int] < modulus());
    }
}

/// The shares of a dealt secret reconstruct the secret: where the dealer's
/// polynomial has the constant term `s`, and `t + 1` distinct participants
/// each contribute the constant term of their polynomial, the value at zero
/// of the polynomial through these shares is `s`.
pub proof fn lemma_shares_reconstruct_secret(
    t: nat,
    domain: Seq<nat>,
    phi: Coefficients,
    s: nat,
    shares: Seq<Evaluation>,
)
    requires
        shares_secret(phi, t, s),
        reduced_coefficients(phi),
        nodes_ok(domain),
        shares.len() == t + 1,
        points_wf(shares, domain.len()),
        forall|a: int|
            0 <= a < shares.len() ==> (#[trigger] shares[a]).value == row_polynomial_spec(
                phi,
                domain[shares[a].sender as int],
            )[0],
    ensures
        reconstructed(t, domain, shares) == s,
{
    let xs = nodes_of(shares, domain, t + 1);
    let ys = values_of(shares, t + 1);
    let p = phi[0];
    lemma_selected_nodes_ok(shares, domain, t + 1);
    lemma_reduce_small(0);
    assert(ys =~= values_at(p, xs));
    lemma_interpolation_exact(xs, p, 0);
    // The value at zero is the constant term.
    let rest = eval_spec(p.drop_first(), 0) as int;
    lemma_eval_bound(p.drop_first(), 0);
    lemma_reduce_small(rest as nat);
    lemma_reduce_small(p[0]);
    lemma_mul_reduce(0, rest);
    assert(0 * rest == 0) by (nonlinear_arith);
    lemma_add_reduce(p[0] as int, 0);
}

/// `x` to the power `k`, as an integer.
pub open spec fn ipow(x: int, k: int) -> int
    decreases k,
{
    if k <= 0 {
        1
    } else {
        x * ipow(x, k - 1)
    }
}

/// A sum begins with its first term: it is the value at zero plus the sum
/// of the values at the indices from one on.
pub proof fn lemma_isum_first(f: spec_fn(int) -> int, g: spec_fn(int) -> int, n: int)
    requires
        n >= 1,
        forall|k: int| 0 <= k < n - 1 ==> #[trigger] g(k) == f(k + 1),
    ensures
        isum(f, n) == f(0) + isum(g, n - 1),
    decreases n,
{
    if n > 1 {
        lemma_isum_first(f, g, n - 1);
        assert(g(n - 2) == f(n - 1));
        assert(isum(f, n) == isum(f, n - 1) + f(n - 1));
        assert(isum(g, n - 1) == isum(g, n - 2) + g(n - 2));
    } else {
        assert(isum(f, 1) == isum(f, 0) + f(0));
        assert(isum(f, 0) == 0);
        assert(isum(g, 0) == 0);
    }
}

/// The value of a polynomial is the representative of the sum of its
/// coefficients times the powers of the point.
pub proof fn lemma_eval_power_sum(p: Seq<nat>, x: nat)
    requires
        reduced(p),
        x < modulus(),
    ensures
        eval_spec(p, x) == reduce(isum(|k: int| p[k] * ipow(x as int, k), p.len() as int)),
    decreases p.len(),
{
    let xi = x as int;
    let f = |k: int| p[k] * ipow(xi, k);
    lemma_reduce_small(0);
    if p.len() > 0 {
        let rest = p.drop_first();
        let g = |k: int| rest[k] * ipow(xi, k);
        assert(reduced(rest)) by {
            assert forall|k: int| 0 <= k < rest.len() implies #[trigger] rest[k] < modulus() by {
                assert(rest[k] == p[k + 1]);
            }
        }
        lemma_eval_power_sum(rest, x);
        let n = p.len() as int;
        // The sum for p is p[0] plus x times the sum for the rest.
        let shifted = |k: int| f(k + 1);
        lemma_isum_first(f, shifted, n);
        let zero = |k: int| 0int;
        assert forall|k: int| 0 <= k < n - 1 implies #[trigger] shifted(k) == 0 * zero(k) + xi
            * g(k) by {
            assert(rest[k] == p[k + 1]);
            assert(ipow(xi, k + 1) == xi * ipow(xi, k));
            let c = p[k + 1] as int;
            let w = ipow(xi, k);
            assert(c * (xi * w) == 0 * 0 + xi * (c * w)) by (nonlinear_arith);
        }
        lemma_isum_combination(shifted, zero, g, 0, xi, n - 1);
        assert(0 * isum(zero, n - 1) == 0) by (nonlinear_arith);
        assert(ipow(xi, 0) == 1);
        assert(f(0) == p[0]) by (nonlinear_arith)
            requires
                f(0) == p[0] * ipow(xi, 0),
                ipow(xi, 0) == 1,
        ;
        assert(isum(f, n) == p[0] + xi * isum(g, n - 1));
        // The value of p is p[0] + x * (the value of the rest).
        let e = eval_spec(rest, x) as int;
        lemma_eval_bound(rest, x);
        lemma_reduce_small(e as nat);
        lemma_reduce_small(x);
        lemma_reduce_small(p[0]);
        lemma_mul_reduce(xi, e);
        lemma_add_reduce(p[0] as int, xi * e);
        lemma_reduce_mul_congruent(e, isum(g, n - 1), xi);
        lemma_reduce_add_congruent(xi * e, xi * isum(g, n - 1), p[0] as int);
    }
}

/// The order of summation over two indices does not matter.
pub proof fn lemma_isum_exchange(
    f: spec_fn(int, int) -> int,
    rows: spec_fn(int) -> int,
    columns: spec_fn(int) -> int,
    r: int,
    c: int,
)
    requires
        forall|j: int| 0 <= j < r ==> #[trigger] rows(j) == isum(|l: int| f(j, l), c),
        forall|l: int| 0 <= l < c ==> #[trigger] columns(l) == isum(|j: int| f(j, l), r),
    ensures
        isum(rows, r) == isum(columns, c),
    decreases r,
{
    if r <= 0 {
        assert forall|l: int| 0 <= l < c implies #[trigger] columns(l) == 0 by {
            assert(isum(|j: int| f(j, l), r) == 0);
        }
        lemma_isum_zero(columns, c);
    } else {
        // Without the last row the columns are shorter by one term each.
        let shorter = |l: int| isum(|j: int| f(j, l), r - 1);
        lemma_isum_exchange(f, rows, shorter, r - 1, c);
        let last = |l: int| f(r - 1, l);
        assert forall|l: int| 0 <= l < c implies #[trigger] columns(l) == shorter(l) + 1 * last(
            l,
        ) by {
            let column = |j: int| f(j, l);
            assert(isum(column, r) == isum(column, r - 1) + column(r - 1));
        }
        lemma_isum_linear(columns, shorter, last, 1, c);
        assert(1 * isum(last, c) == isum(last, c)) by (nonlinear_arith);
        lemma_isum_same(last, |l: int| f(r - 1, l), c);
        assert(rows(r - 1) == isum(|l: int| f(r - 1, l), c));
    }
}

/// The terms of the double sum of a bivariate polynomial: the coefficient of
/// `x^j y^l` times the powers.
pub open spec fn monomial(phi: Coefficients, x: int, y: int) -> spec_fn(int, int) -> int {
    |j: int, l: int| phi[j][l] * (ipow(x, j) * ipow(y, l))
}

/// The value at `x` of the polynomial with `y` fixed is the representative
/// of the double sum of the monomials.
pub proof fn lemma_bivariate_value(phi: Coefficients, size: nat, x: nat, y: nat)
    requires
        square(phi, size),
        reduced_coefficients(phi),
        x < modulus(),
        y < modulus(),
    ensures
        eval_spec(row_polynomial_spec(phi, y), x) == reduce(
            isum(
                |j: int| isum(|l: int| monomial(phi, x as int, y as int)(j, l), size as int),
                size as int,
            ),
        ),
{
    let xi = x as int;
    let yi = y as int;
    let n = size as int;
    let row = row_polynomial_spec(phi, y);
    let f = monomial(phi, xi, yi);
    let outer = |j: int| row[j] * ipow(xi, j);
    let target = |j: int| isum(|l: int| f(j, l), n);
    assert(reduced(row)) by {
        assert forall|j: int| 0 <= j < row.len() implies #[trigger] row[j] < modulus() by {
            lemma_eval_bound(phi[j], y);
        }
    }
    lemma_eval_power_sum(row, x);
    assert forall|j: int| 0 <= j < n implies reduce(#[trigger] outer(j)) == reduce(
        #[trigger] target(j),
    ) by {
        let inner = |l: int| phi[j][l] * ipow(yi, l);
        let scaled = |l: int| f(j, l);
        assert(phi[j].len() == size);
        lemma_eval_power_sum(phi[j], y);
        assert(row[j] == reduce(isum(inner, n)));
        // x^j times the inner sum is the sum of the monomials of row j.
        let zero = |l: int| 0int;
        let w = ipow(xi, j);
        assert forall|l: int| 0 <= l < n implies #[trigger] scaled(l) == 0 * zero(l) + w * inner(
            l,
        ) by {
            let c = phi[j][l] as int;
            let v = ipow(yi, l);
            assert(c * (w * v) == 0 * 0 + w * (c * v)) by (nonlinear_arith);
        }
        lemma_isum_combination(scaled, zero, inner, 0, w, n);
        assert(0 * isum(zero, n) == 0) by (nonlinear_arith);
        lemma_reduce_bound(isum(inner, n));
        lemma_reduce_small(row[j]);
        lemma_reduce_mul_congruent(row[j] as int, isum(inner, n), w);
        assert(row[j] * w == outer(j));
        assert(isum(inner, n) * w == w * isum(inner, n)) by (nonlinear_arith);
    }
    lemma_isum_congruent(outer, target, n);
    lemma_isum_same(outer, |k: int| row[k] * ipow(xi, k), n);
}

/// A symmetric polynomial has the same value with its variables exchanged:
/// the value at `x` of the polynomial with `y` fixed is the value at `y` of
/// the polynomial with `x` fixed.
pub proof fn lemma_symmetric_value(phi: Coefficients, size: nat, x: nat, y: nat)
    requires
        square(phi, size),
        symmetric(phi),
        reduced_coefficients(phi),
        x < modulus(),
        y < modulus(),
    ensures
        eval_spec(row_polynomial_spec(phi, y), x) == eval_spec(row_polynomial_spec(phi, x), y),
{
    let xi = x as int;
    let yi = y as int;
    let n = size as int;
    let f = monomial(phi, xi, yi);
    let g = monomial(phi, yi, xi);
    lemma_bivariate_value(phi, size, x, y);
    lemma_bivariate_value(phi, size, y, x);
    let rows_f = |j: int| isum(|l: int| f(j, l), n);
    let rows_g = |j: int| isum(|l: int| g(j, l), n);
    // Row l of g is column l of f.
    let columns_f = |l: int| isum(|j: int| f(j, l), n);
    assert forall|l: int| 0 <= l < n implies #[trigger] rows_g(l) == #[trigger] columns_f(l) by {
        let a = |j: int| g(l, j);
        let b = |j: int| f(j, l);
        assert forall|j: int| 0 <= j < n implies #[trigger] a(j) == #[trigger] b(j) by {
            assert(phi[l][j] == phi[j][l]);
            let c = phi[j][l] as int;
            let u = ipow(xi, j);
            let v = ipow(yi, l);
            assert(c * (v * u) == c * (u * v)) by (nonlinear_arith);
        }
        lemma_isum_same(a, b, n);
    }
    lemma_isum_same(rows_g, columns_f, n);
    lemma_isum_exchange(f, rows_f, columns_f, n, n);
}

/// The evaluations that an interpolation uses are what their senders echo to
/// this participant when all hold rows of the polynomial `phi`: the value at
/// this participant's point of the sender's polynomial.
pub open spec fn echoed_by_holders(
    setup: Setup,
    phi: Coefficients,
    points: Seq<Evaluation>,
) -> bool {
    forall|a: int|
        0 <= a < used(points, setup.t) ==> (#[trigger] points[a]).value == eval_spec(
            row_polynomial_spec(phi, setup.domain[points[a].sender as int]),
            setup.own_point(),
        )
}

/// From `t + 1` or more evaluations that were echoed by holders of rows of a
/// symmetric polynomial, a participant interpolates its own row: the
/// interpolated polynomial has at every point the value of the polynomial
/// that the dealer handed to this participant.
pub proof fn lemma_own_polynomial_interpolated(
    setup: Setup,
    phi: Coefficients,
    points: Seq<Evaluation>,
    x: nat,
)
    requires
        setup.valid(),
        square(phi, setup.t + 1),
        symmetric(phi),
        reduced_coefficients(phi),
        points_wf(points, setup.n),
        points.len() >= setup.t + 1,
        echoed_by_holders(setup, phi, points),
        x < modulus(),
    ensures
        interpolated(setup, points, x) == eval_spec(
            row_polynomial_spec(phi, setup.own_point()),
            x,
        ),
{
    let k = used(points, setup.t);
    let xs = nodes_of(points, setup.domain, k);
    let ys = values_of(points, k);
    let own = setup.own_point();
    let p = row_polynomial_spec(phi, own);
    lemma_selected_nodes_ok(points, setup.domain, k);
    assert(own < modulus());
    assert(reduced(p)) by {
        assert forall|j: int| 0 <= j < p.len() implies #[trigger] p[j] < modulus() by {
            lemma_eval_bound(phi[j], own);
        }
    }
    assert(ys =~= values_at(p, xs)) by {
        assert forall|a: int| 0 <= a < k implies ys[a] == values_at(p, xs)[a] by {
            let sender_point = setup.domain[points[a].sender as int];
            assert(points[a].sender < setup.n);
            lemma_symmetric_value(phi, setup.t + 1, own, sender_point);
        }
    }
    lemma_interpolation_exact(xs, p, x);
}

/// The Ready messages that a participant announces from such evaluations
/// carry the values of its own polynomial: to participant `j` the value at
/// the point of `j`, which is what the participant echoed to `j`.
pub proof fn lemma_ready_carries_own_values(
    setup: Setup,
    phi: Coefficients,
    c: CommitmentView,
    points: Seq<Evaluation>,
    j: int,
)
    requires
        setup.valid(),
        square(phi, setup.t + 1),
        symmetric(phi),
        reduced_coefficients(phi),
        points_wf(points, setup.n),
        points.len() >= setup.t + 1,
        echoed_by_holders(setup, phi, points),
        0 <= j < setup.n,
    ensures
        ready_messages(setup, c, points)[j].alpha == eval_spec(
            row_polynomial_spec(phi, setup.own_point()),
            setup.domain[j],
        ),
{
    lemma_own_polynomial_interpolated(setup, phi, points, setup.domain[j]);
}

/// The share that a participant outputs from such evaluations is the
/// constant term of its own polynomial.
pub proof fn lemma_share_is_own_constant_term(
    setup: Setup,
    phi: Coefficients,
    c: CommitmentView,
    points: Seq<Evaluation>,
)
    requires
        setup.valid(),
        square(phi, setup.t + 1),
        symmetric(phi),
        reduced_coefficients(phi),
        points_wf(points, setup.n),
        points.len() >= setup.t + 1,
        echoed_by_holders(setup, phi, points),
    ensures
        shared_message(setup, c, points).share == row_polynomial_spec(phi, setup.own_point())[0],
{
    lemma_reduce_small(0);
    lemma_own_polynomial_interpolated(setup, phi, points, 0);
    let p = row_polynomial_spec(phi, setup.own_point());
    lemma_eval_bound(phi[0], setup.own_point());
    let rest = eval_spec(p.drop_first(), 0) as int;
    lemma_eval_bound(p.drop_first(), 0);
    lemma_reduce_small(rest as nat);
    lemma_reduce_small(p[0]);
    lemma_mul_reduce(0, rest);
    assert(0 * rest == 0) by (nonlinear_arith);
    lemma_add_reduce(p[0] as int, 0);
}

} // verus!
