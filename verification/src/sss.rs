//! Shamir secret sharing over the scalar field: shares, polynomial evaluation and
//! Lagrange interpolation, at zero and in coefficient form.
//!
//! The laws of this module say what interpolation means: Lagrange's polynomial passes
//! through its points, it is the only polynomial with as many coefficients that does,
//! and Lagrange's formula at zero gives its constant term. They hold wherever the
//! differences of the indices have inverses that invert them; the inverse of a scalar is
//! its power `group_order() − 2`, which inverts every scalar but zero if the group order
//! is prime.

use vstd::prelude::*;
use vstd::arithmetic::div_mod::{
    lemma_mod_bound, lemma_mod_twice, lemma_small_mod, lemma_sub_mod_noop_right,
};
use crate::scalar::{
    group_order, lemma_congruent_product, lemma_congruent_sum, lemma_order_bounds,
    lemma_pow_mod_bound, lemma_pow_mod_congruent, lemma_pow_mod_of_one, lemma_pow_mod_product,
    lemma_scalar_sub_is_difference, scalar_add, scalar_inv, scalar_mul, scalar_sub, Scalar,
};

verus! {

/// What a [`Share`] stands for: a point `(index, value)` of a polynomial.
pub struct ShareModel {
    pub index: nat,
    pub value: nat,
}

/// The value of a polynomial at an index.
#[derive(Clone, Copy, Debug, PartialEq, Eq)]
pub struct Share {
    pub index: Scalar,
    pub value: Scalar,
}

impl View for Share {
    type V = ShareModel;

    open spec fn view(&self) -> ShareModel {
        ShareModel { index: self.index@, value: self.value@ }
    }
}

/// The values of a sequence of scalars.
pub open spec fn scalar_values(s: Seq<Scalar>) -> Seq<nat> {
    Seq::new(s.len(), |i: int| s[i]@)
}

/// The indices of a sequence of shares.
pub open spec fn share_indices(s: Seq<Share>) -> Seq<nat> {
    Seq::new(s.len(), |i: int| s[i]@.index)
}

/// The values of a sequence of shares.
pub open spec fn share_values(s: Seq<Share>) -> Seq<nat> {
    Seq::new(s.len(), |i: int| s[i]@.value)
}

/// The models of a sequence of shares.
pub open spec fn share_models(buf: Seq<Share>) -> Seq<ShareModel> {
    Seq::new(buf.len(), |i: int| buf[i]@)
}

/// The indices of a sequence of share models.
pub open spec fn model_indices(buf: Seq<ShareModel>) -> Seq<nat> {
    Seq::new(buf.len(), |i: int| buf[i].index)
}

/// The values of a sequence of share models.
pub open spec fn model_values(buf: Seq<ShareModel>) -> Seq<nat> {
    Seq::new(buf.len(), |i: int| buf[i].value)
}

/// The value at `x` of the polynomial with the coefficients `coeffs[from..]`, lowest
/// degree first.
pub open spec fn poly_eval_from(coeffs: Seq<nat>, x: nat, from: int) -> nat
    decreases coeffs.len() - from,
{
    if from >= coeffs.len() || from < 0 {
        0
    } else {
        scalar_add(scalar_mul(poly_eval_from(coeffs, x, from + 1), x), coeffs[from])
    }
}

/// The value at `x` of the polynomial with the coefficients `coeffs`, lowest degree
/// first.
pub open spec fn poly_eval(coeffs: Seq<nat>, x: nat) -> nat {
    poly_eval_from(coeffs, x, 0)
}

/// The product, over the first `n` indices `xs[j]` other than `xs[i]`, of
/// `xs[j] / (xs[j] - xs[i])`: the value at zero of the `i`-th Lagrange basis polynomial
/// when `n` is the number of indices.
pub open spec fn lagrange_basis(xs: Seq<nat>, i: int, n: nat) -> nat
    decreases n,
{
    if n == 0 {
        1
    } else {
        let rest = lagrange_basis(xs, i, (n - 1) as nat);
        if n - 1 == i {
            rest
        } else {
            scalar_mul(
                rest,
                scalar_mul(xs[n - 1], scalar_inv(scalar_sub(xs[n - 1], xs[i]))),
            )
        }
    }
}

/// The sum over the first `n` points of `ys[i]` times the `i`-th Lagrange basis value.
pub open spec fn interpolation_sum(xs: Seq<nat>, ys: Seq<nat>, n: nat) -> nat
    decreases n,
{
    if n == 0 {
        0
    } else {
        scalar_add(
            interpolation_sum(xs, ys, (n - 1) as nat),
            scalar_mul(ys[n - 1], lagrange_basis(xs, n - 1, xs.len())),
        )
    }
}

/// The value at zero of the polynomial of least degree through the points
/// `(xs[i], ys[i])`, by Lagrange's formula.
pub open spec fn interpolate_at_zero(xs: Seq<nat>, ys: Seq<nat>) -> nat {
    interpolation_sum(xs, ys, xs.len())
}

/// The coefficients of the polynomial `p` times `x − a`.
pub open spec fn times_linear(p: Seq<nat>, a: nat) -> Seq<nat> {
    Seq::new(
        p.len() + 1,
        |t: int|
            scalar_sub(
                if t > 0 {
                    p[t - 1]
                } else {
                    0
                },
                scalar_mul(
                    a,
                    if t < p.len() {
                        p[t]
                    } else {
                        0
                    },
                ),
            ),
    )
}

/// The coefficients of the product of `x − xs[j]` over the first `n` indices other than
/// `xs[i]`.
pub open spec fn basis_numerator(xs: Seq<nat>, i: int, n: nat) -> Seq<nat>
    decreases n,
{
    if n == 0 {
        seq![1nat]
    } else {
        let rest = basis_numerator(xs, i, (n - 1) as nat);
        if n - 1 == i {
            rest
        } else {
            times_linear(rest, xs[n - 1])
        }
    }
}

/// The product of `xs[i] − xs[j]` over the first `n` indices other than `xs[i]`.
pub open spec fn basis_denominator(xs: Seq<nat>, i: int, n: nat) -> nat
    decreases n,
{
    if n == 0 {
        1
    } else {
        let rest = basis_denominator(xs, i, (n - 1) as nat);
        if n - 1 == i {
            rest
        } else {
            scalar_mul(rest, scalar_sub(xs[i], xs[n - 1]))
        }
    }
}

/// The coefficients of `acc` plus `s` times `p`, as many as `acc` has.
pub open spec fn plus_scaled(acc: Seq<nat>, p: Seq<nat>, s: nat) -> Seq<nat> {
    Seq::new(
        acc.len(),
        |t: int|
            scalar_add(
                acc[t],
                scalar_mul(
                    s,
                    if t < p.len() {
                        p[t]
                    } else {
                        0
                    },
                ),
            ),
    )
}

/// The sum over the first `n` points of `ys[i]` times the `i`-th Lagrange basis
/// polynomial, as coefficients.
pub open spec fn interpolant_sum(xs: Seq<nat>, ys: Seq<nat>, n: nat) -> Seq<nat>
    decreases n,
{
    if n == 0 {
        Seq::new(xs.len(), |t: int| 0nat)
    } else {
        plus_scaled(
            interpolant_sum(xs, ys, (n - 1) as nat),
            basis_numerator(xs, n - 1, xs.len()),
            scalar_mul(ys[n - 1], scalar_inv(basis_denominator(xs, n - 1, xs.len()))),
        )
    }
}

/// The coefficients, lowest degree first and as many as there are points, of the
/// polynomial through the points `(xs[i], ys[i])`, by Lagrange's formula.
pub open spec fn interpolant(xs: Seq<nat>, ys: Seq<nat>) -> Seq<nat> {
    interpolant_sum(xs, ys, xs.len())
}

/// The interpolant has as many coefficients as there are points.
pub proof fn lemma_interpolant_len(xs: Seq<nat>, ys: Seq<nat>, n: nat)
    ensures
        interpolant_sum(xs, ys, n).len() == xs.len(),
    decreases n,
{
    if n > 0 {
        lemma_interpolant_len(xs, ys, (n - 1) as nat);
    }
}

/// The coefficient of `p` below position `from`, or zero where there is none.
pub open spec fn coefficient_below(p: Seq<nat>, from: int) -> nat {
    if 0 < from <= p.len() {
        p[from - 1]
    } else {
        0
    }
}

/// The value of the upper coefficients of `p` times `x − a` is the coefficient of `p`
/// below them plus `x − a` times the value of the upper coefficients of `p`.
pub proof fn lemma_times_linear_tail(p: Seq<nat>, a: nat, x: nat, from: int)
    requires
        0 <= from <= p.len() + 1,
    ensures
        poly_eval_from(times_linear(p, a), x, from) == (coefficient_below(p, from) + (x - a)
            * poly_eval_from(p, x, from)) % (group_order() as int),
    decreases p.len() + 1 - from,
{
    let m = group_order() as int;
    let t = times_linear(p, a);
    let n = p.len() as int;
    lemma_order_bounds();
    if from == n + 1 {
        assert((x - a) * 0 == 0) by (nonlinear_arith);
        lemma_small_mod(0, group_order());
    } else {
        lemma_times_linear_tail(p, a, x, from + 1);
        let f = poly_eval_from(t, x, from) as int;
        let f1 = poly_eval_from(t, x, from + 1) as int;
        let e = poly_eval_from(p, x, from) as int;
        let e1 = poly_eval_from(p, x, from + 1) as int;
        let lo = coefficient_below(p, from) as int;
        let hi = coefficient_below(p, from + 1) as int;
        let tf = t[from] as int;
        let xi = x as int;
        let d = x - a;
        // The coefficient at `from` of the product.
        assert(t[from] == scalar_sub(lo as nat, scalar_mul(a, hi as nat)));
        lemma_scalar_sub_is_difference(lo as nat, scalar_mul(a, hi as nat));
        lemma_sub_mod_noop_right(lo, a * hi, m);
        lemma_mod_twice(lo - a * hi, m);
        assert(tf % m == (lo - a * hi) % m);
        // The tail of the product, by induction.
        lemma_mod_twice(hi + d * e1, m);
        assert(f1 % m == (hi + d * e1) % m);
        lemma_congruent_product(f1, hi + d * e1, xi, xi);
        lemma_mod_twice(f1 * xi, m);
        lemma_congruent_sum((f1 * xi) % m, (hi + d * e1) * xi, tf, lo - a * hi);
        assert(f == ((f1 * xi) % m + tf) % m);
        assert(f == ((hi + d * e1) * xi + (lo - a * hi)) % m);
        // The tail of the polynomial itself.
        if from < n {
            assert(e == ((e1 * xi) % m + hi) % m);
            lemma_mod_twice(e1 * xi, m);
            lemma_congruent_sum((e1 * xi) % m, e1 * xi, hi, hi);
            lemma_mod_twice(e1 * xi + hi, m);
        } else {
            assert(e == 0 && e1 == 0 && hi == 0);
            assert(0 * xi + 0 == 0) by (nonlinear_arith);
        }
        assert(e % m == (e1 * xi + hi) % m);
        lemma_congruent_product(d, d, e, e1 * xi + hi);
        lemma_congruent_sum(lo, lo, d * e, d * (e1 * xi + hi));
        assert((hi + d * e1) * xi + (lo - a * hi) == lo + d * (e1 * xi + hi))
            by (nonlinear_arith)
            requires
                d == xi - a,
        ;
    }
}

/// Multiplying a polynomial by `x − a` multiplies its value at `x` by `x − a`.
pub proof fn lemma_times_linear_eval(p: Seq<nat>, a: nat, x: nat)
    ensures
        poly_eval(times_linear(p, a), x) == scalar_mul(poly_eval(p, x), scalar_sub(x, a)),
{
    let m = group_order() as int;
    let e = poly_eval(p, x) as int;
    lemma_order_bounds();
    lemma_times_linear_tail(p, a, x, 0);
    lemma_scalar_sub_is_difference(x, a);
    lemma_mod_twice(x - a, m);
    lemma_congruent_product(e, e, scalar_sub(x, a) as int, x - a);
    assert(e * (x - a) == (x - a) * e) by (nonlinear_arith);
}

/// The coefficient of `p` at position `from`, or zero where there is none.
pub open spec fn coefficient_at(p: Seq<nat>, from: int) -> nat {
    if 0 <= from < p.len() {
        p[from]
    } else {
        0
    }
}

/// The value of the upper coefficients of `acc` plus `s` times `p` is the value of the
/// upper coefficients of `acc` plus `s` times that of the upper coefficients of `p`.
pub proof fn lemma_plus_scaled_tail(acc: Seq<nat>, p: Seq<nat>, s: nat, x: nat, from: int)
    requires
        p.len() <= acc.len(),
        0 <= from <= acc.len(),
    ensures
        poly_eval_from(plus_scaled(acc, p, s), x, from) == (poly_eval_from(acc, x, from) + s
            * poly_eval_from(p, x, from)) % group_order(),
    decreases acc.len() - from,
{
    let m = group_order() as int;
    let q = plus_scaled(acc, p, s);
    lemma_order_bounds();
    if from == acc.len() {
        assert(s * 0 == 0) by (nonlinear_arith);
        lemma_small_mod(0, group_order());
    } else {
        lemma_plus_scaled_tail(acc, p, s, x, from + 1);
        let f = poly_eval_from(q, x, from) as int;
        let f1 = poly_eval_from(q, x, from + 1) as int;
        let a0 = poly_eval_from(acc, x, from) as int;
        let a1 = poly_eval_from(acc, x, from + 1) as int;
        let e = poly_eval_from(p, x, from) as int;
        let e1 = poly_eval_from(p, x, from + 1) as int;
        let c = acc[from] as int;
        let pt = coefficient_at(p, from) as int;
        let qf = q[from] as int;
        let xi = x as int;
        let si = s as int;
        // The coefficient at `from` of the sum.
        assert(q[from] == scalar_add(acc[from], scalar_mul(s, pt as nat)));
        lemma_mod_twice(si * pt, m);
        lemma_congruent_sum(c, c, (si * pt) % m, si * pt);
        lemma_mod_twice(c + (si * pt) % m, m);
        assert(qf % m == (c + si * pt) % m);
        // The tail of the sum, by induction.
        lemma_mod_twice(a1 + si * e1, m);
        lemma_congruent_product(f1, a1 + si * e1, xi, xi);
        lemma_mod_twice(f1 * xi, m);
        lemma_congruent_sum((f1 * xi) % m, (a1 + si * e1) * xi, qf, c + si * pt);
        assert(f == ((f1 * xi) % m + qf) % m);
        assert(f == ((a1 + si * e1) * xi + (c + si * pt)) % m);
        // The tails of the two polynomials.
        assert(a0 == ((a1 * xi) % m + c) % m);
        lemma_mod_twice(a1 * xi, m);
        lemma_congruent_sum((a1 * xi) % m, a1 * xi, c, c);
        lemma_mod_twice(a1 * xi + c, m);
        assert(a0 % m == (a1 * xi + c) % m);
        if from < p.len() {
            assert(e == ((e1 * xi) % m + pt) % m);
            lemma_mod_twice(e1 * xi, m);
            lemma_congruent_sum((e1 * xi) % m, e1 * xi, pt, pt);
            lemma_mod_twice(e1 * xi + pt, m);
        } else {
            assert(e == 0 && e1 == 0 && pt == 0);
            assert(0 * xi + 0 == 0) by (nonlinear_arith);
        }
        assert(e % m == (e1 * xi + pt) % m);
        lemma_congruent_product(si, si, e, e1 * xi + pt);
        lemma_congruent_sum(a0, a1 * xi + c, si * e, si * (e1 * xi + pt));
        assert((a1 + si * e1) * xi + (c + si * pt) == (a1 * xi + c) + si * (e1 * xi + pt))
            by (nonlinear_arith);
    }
}

/// Adding `s` times a polynomial adds `s` times its value.
pub proof fn lemma_plus_scaled_eval(acc: Seq<nat>, p: Seq<nat>, s: nat, x: nat)
    requires
        p.len() <= acc.len(),
    ensures
        poly_eval(plus_scaled(acc, p, s), x) == scalar_add(
            poly_eval(acc, x),
            scalar_mul(s, poly_eval(p, x)),
        ),
{
    let m = group_order() as int;
    lemma_order_bounds();
    lemma_plus_scaled_tail(acc, p, s, x, 0);
    let a0 = poly_eval(acc, x) as int;
    let e = poly_eval(p, x) as int;
    lemma_mod_twice(s * e, m);
    lemma_congruent_sum(a0, a0, (s * e) % m, s * e);
}

/// The product of `x − xs[j]` over the first `n` indices other than `xs[i]`.
pub open spec fn numerator_value(xs: Seq<nat>, i: int, n: nat, x: nat) -> nat
    decreases n,
{
    if n == 0 {
        1
    } else {
        let rest = numerator_value(xs, i, (n - 1) as nat, x);
        if n - 1 == i {
            rest
        } else {
            scalar_mul(rest, scalar_sub(x, xs[n - 1]))
        }
    }
}

/// The numerator of a basis polynomial has one coefficient more than it has factors.
pub proof fn lemma_basis_numerator_len(xs: Seq<nat>, i: int, n: nat)
    ensures
        basis_numerator(xs, i, n).len() == if 0 <= i < n {
            n
        } else {
            n + 1
        },
    decreases n,
{
    if n > 0 {
        lemma_basis_numerator_len(xs, i, (n - 1) as nat);
    }
}

/// The value of the numerator of a basis polynomial is the product of its factors.
pub proof fn lemma_basis_numerator_eval(xs: Seq<nat>, i: int, n: nat, x: nat)
    ensures
        poly_eval(basis_numerator(xs, i, n), x) == numerator_value(xs, i, n, x),
    decreases n,
{
    lemma_order_bounds();
    if n == 0 {
        let one = seq![1nat];
        assert(poly_eval_from(one, x, 1) == 0);
        assert(0 * x == 0) by (nonlinear_arith);
        lemma_small_mod(0, group_order());
        lemma_small_mod(1, group_order());
        assert(poly_eval_from(one, x, 0) == scalar_add(scalar_mul(0, x), one[0]));
    } else {
        lemma_basis_numerator_eval(xs, i, (n - 1) as nat, x);
        if n - 1 != i {
            lemma_times_linear_eval(basis_numerator(xs, i, (n - 1) as nat), xs[n - 1], x);
        }
    }
}

/// The numerator of the `i`-th basis polynomial vanishes at every other index.
pub proof fn lemma_numerator_vanishes(xs: Seq<nat>, i: int, n: nat, j: int)
    requires
        0 <= j < n,
        j != i,
    ensures
        numerator_value(xs, i, n, xs[j]) == 0,
    decreases n,
{
    let m = group_order() as int;
    lemma_order_bounds();
    lemma_small_mod(0, group_order());
    let rest = numerator_value(xs, i, (n - 1) as nat, xs[j]);
    if n - 1 == j {
        lemma_scalar_sub_is_difference(xs[j], xs[j]);
        assert(rest * 0 == 0) by (nonlinear_arith);
    } else {
        lemma_numerator_vanishes(xs, i, (n - 1) as nat, j);
        if n - 1 != i {
            assert(0 * scalar_sub(xs[j], xs[n - 1]) == 0) by (nonlinear_arith);
        }
    }
}

/// At its own index the numerator of the `i`-th basis polynomial is its denominator.
pub proof fn lemma_numerator_at_own_index(xs: Seq<nat>, i: int, n: nat)
    ensures
        numerator_value(xs, i, n, xs[i]) == basis_denominator(xs, i, n),
    decreases n,
{
    if n > 0 {
        lemma_numerator_at_own_index(xs, i, (n - 1) as nat);
    }
}

/// The polynomial with zero coefficients only has the value zero.
pub proof fn lemma_zero_polynomial_eval(len: nat, x: nat, from: int)
    requires
        0 <= from <= len,
    ensures
        poly_eval_from(Seq::new(len, |t: int| 0nat), x, from) == 0,
    decreases len - from,
{
    lemma_order_bounds();
    if from < len {
        lemma_zero_polynomial_eval(len, x, from + 1);
        assert(0 * x == 0) by (nonlinear_arith);
        lemma_small_mod(0, group_order());
    }
}

/// The value at the index `xs[j]` of the sum of the first `n` terms of Lagrange's
/// formula: the `j`-th term where it is among them, which is `ys[j]` times the inverse
/// of the `j`-th denominator times that denominator; zero otherwise.
pub proof fn lemma_interpolant_sum_at_index(xs: Seq<nat>, ys: Seq<nat>, n: nat, j: int)
    requires
        xs.len() == ys.len(),
        n <= xs.len(),
        0 <= j < xs.len(),
    ensures
        poly_eval(interpolant_sum(xs, ys, n), xs[j]) == if j < n {
            scalar_mul(
                scalar_mul(ys[j], scalar_inv(basis_denominator(xs, j, xs.len()))),
                basis_denominator(xs, j, xs.len()),
            )
        } else {
            0
        },
    decreases n,
{
    let m = group_order() as int;
    lemma_order_bounds();
    lemma_small_mod(0, group_order());
    if n == 0 {
        lemma_zero_polynomial_eval(xs.len(), xs[j], 0);
    } else {
        let i = n - 1;
        let before = interpolant_sum(xs, ys, (n - 1) as nat);
        let numerator = basis_numerator(xs, i, xs.len());
        let scale = scalar_mul(ys[i], scalar_inv(basis_denominator(xs, i, xs.len())));
        lemma_interpolant_sum_at_index(xs, ys, (n - 1) as nat, j);
        lemma_interpolant_len(xs, ys, (n - 1) as nat);
        lemma_basis_numerator_len(xs, i, xs.len());
        lemma_plus_scaled_eval(before, numerator, scale, xs[j]);
        lemma_basis_numerator_eval(xs, i, xs.len(), xs[j]);
        let v = poly_eval(before, xs[j]);
        if j == i {
            lemma_numerator_at_own_index(xs, i, xs.len());
            let term = scalar_mul(scale, basis_denominator(xs, j, xs.len()));
            lemma_small_mod(term, group_order());
            assert(v == 0);
        } else {
            lemma_numerator_vanishes(xs, i, xs.len(), j);
            assert(scale * 0 == 0) by (nonlinear_arith);
            lemma_small_mod(v, group_order());
        }
    }
}

/// The polynomial of Lagrange's formula passes through the point `(xs[j], ys[j])`
/// wherever the inverse of the `j`-th denominator, the product of the differences
/// `xs[j] − xs[i]`, inverts it.
pub proof fn lemma_interpolant_passes_through(xs: Seq<nat>, ys: Seq<nat>, j: int)
    requires
        xs.len() == ys.len(),
        0 <= j < xs.len(),
        scalar_mul(
            basis_denominator(xs, j, xs.len()),
            scalar_inv(basis_denominator(xs, j, xs.len())),
        ) == 1,
    ensures
        poly_eval(interpolant(xs, ys), xs[j]) == ys[j] % group_order(),
{
    let m = group_order() as int;
    let d = basis_denominator(xs, j, xs.len()) as int;
    let inv = scalar_inv(basis_denominator(xs, j, xs.len())) as int;
    let y = ys[j] as int;
    lemma_order_bounds();
    lemma_interpolant_sum_at_index(xs, ys, xs.len(), j);
    lemma_mod_twice(y * inv, m);
    lemma_congruent_product((y * inv) % m, y * inv, d, d);
    lemma_small_mod(1, group_order());
    lemma_congruent_product(y, y, d * inv, 1);
    assert((y * inv) * d == y * (d * inv)) by (nonlinear_arith);
    assert(y * 1 == y) by (nonlinear_arith);
}

/// Whether the inverse of `a` inverts it.
pub open spec fn is_unit(a: nat) -> bool {
    scalar_mul(a, scalar_inv(a)) == 1
}

/// Whether the differences of any two of the indices have inverses that invert them.
pub open spec fn invertible_differences(xs: Seq<nat>) -> bool {
    forall|i: int, j: int|
        0 <= i < xs.len() && 0 <= j < xs.len() && i != j ==> is_unit(
            #[trigger] scalar_sub(xs[i], xs[j]),
        )
}

/// The product of two units is a unit.
pub proof fn lemma_product_of_units(a: nat, b: nat)
    requires
        is_unit(a),
        is_unit(b),
    ensures
        is_unit(scalar_mul(a, b)),
{
    let m = group_order() as int;
    let e = (group_order() - 2) as nat;
    let c = scalar_mul(a, b);
    let ia = scalar_inv(a) as int;
    let ib = scalar_inv(b) as int;
    let ai = a as int;
    let bi = b as int;
    lemma_order_bounds();
    lemma_small_mod(1, group_order());
    lemma_mod_twice(ai * bi, m);
    lemma_pow_mod_congruent(c, a * b, e);
    lemma_pow_mod_product(a, b, e);
    // c * inv(c) = (a * b) * (ia * ib) = (a * ia) * (b * ib) = 1
    lemma_mod_twice(ia * ib, m);
    lemma_congruent_product(c as int, ai * bi, scalar_inv(c) as int, ia * ib);
    lemma_congruent_product(ai * ia, 1, bi * ib, 1);
    assert((ai * bi) * (ia * ib) == (ai * ia) * (bi * ib)) by (nonlinear_arith);
    assert(1 * 1 == 1) by (nonlinear_arith);
}

/// The denominators of Lagrange's formula are units wherever the differences of the
/// indices are.
pub proof fn lemma_denominator_is_unit(xs: Seq<nat>, i: int, n: nat)
    requires
        0 <= i < xs.len(),
        n <= xs.len(),
        invertible_differences(xs),
    ensures
        is_unit(basis_denominator(xs, i, n)),
    decreases n,
{
    lemma_order_bounds();
    if n == 0 {
        lemma_pow_mod_of_one((group_order() - 2) as nat);
        lemma_small_mod(1, group_order());
        assert(1 * 1 == 1) by (nonlinear_arith);
    } else {
        lemma_denominator_is_unit(xs, i, (n - 1) as nat);
        if n - 1 != i {
            assert(is_unit(scalar_sub(xs[i], xs[n - 1])));
            lemma_product_of_units(
                basis_denominator(xs, i, (n - 1) as nat),
                scalar_sub(xs[i], xs[n - 1]),
            );
        }
    }
}

/// The value of a polynomial is below the group order.
pub proof fn lemma_poly_eval_bound(p: Seq<nat>, x: nat, from: int)
    ensures
        poly_eval_from(p, x, from) < group_order(),
{
    lemma_order_bounds();
    if !(from >= p.len() || from < 0) {
        lemma_mod_bound(
            (scalar_mul(poly_eval_from(p, x, from + 1), x) + p[from]) as int,
            group_order() as int,
        );
    }
}

/// Polynomials with congruent coefficients have the same values.
pub proof fn lemma_eval_congruent(p: Seq<nat>, q: Seq<nat>, x: nat, from: int)
    requires
        p.len() == q.len(),
        forall|t: int| 0 <= t < p.len() ==> p[t] % group_order() == q[t] % group_order(),
        0 <= from <= p.len(),
    ensures
        poly_eval_from(p, x, from) == poly_eval_from(q, x, from),
    decreases p.len() - from,
{
    lemma_order_bounds();
    if from < p.len() {
        lemma_eval_congruent(p, q, x, from + 1);
        let e1 = scalar_mul(poly_eval_from(p, x, from + 1), x) as int;
        lemma_congruent_sum(e1, e1, p[from] as int, q[from] as int);
    }
}

/// The polynomial whose coefficients are the differences of those of `a` and `b`.
pub open spec fn difference(a: Seq<nat>, b: Seq<nat>) -> Seq<nat> {
    Seq::new(a.len(), |t: int| scalar_sub(a[t], b[t]))
}

/// The value of the difference of two polynomials is the difference of their values.
pub proof fn lemma_difference_eval(a: Seq<nat>, b: Seq<nat>, x: nat, from: int)
    requires
        a.len() == b.len(),
        0 <= from <= a.len(),
    ensures
        poly_eval_from(difference(a, b), x, from) == (poly_eval_from(a, x, from)
            - poly_eval_from(b, x, from)) % (group_order() as int),
    decreases a.len() - from,
{
    let m = group_order() as int;
    let d = difference(a, b);
    lemma_order_bounds();
    if from == a.len() {
        lemma_small_mod(0, group_order());
    } else {
        lemma_difference_eval(a, b, x, from + 1);
        let f = poly_eval_from(d, x, from) as int;
        let f1 = poly_eval_from(d, x, from + 1) as int;
        let a0 = poly_eval_from(a, x, from) as int;
        let a1 = poly_eval_from(a, x, from + 1) as int;
        let b0 = poly_eval_from(b, x, from) as int;
        let b1 = poly_eval_from(b, x, from + 1) as int;
        let af = a[from] as int;
        let bf = b[from] as int;
        let df = d[from] as int;
        let xi = x as int;
        lemma_scalar_sub_is_difference(a[from], b[from]);
        lemma_mod_twice(af - bf, m);
        assert(df % m == (af - bf) % m);
        lemma_mod_twice(a1 - b1, m);
        lemma_congruent_product(f1, a1 - b1, xi, xi);
        lemma_mod_twice(f1 * xi, m);
        lemma_congruent_sum((f1 * xi) % m, (a1 - b1) * xi, df, af - bf);
        assert(f == ((f1 * xi) % m + df) % m);
        assert(a0 == ((a1 * xi) % m + af) % m);
        lemma_mod_twice(a1 * xi, m);
        lemma_congruent_sum((a1 * xi) % m, a1 * xi, af, af);
        lemma_mod_twice(a1 * xi + af, m);
        assert(b0 == ((b1 * xi) % m + bf) % m);
        lemma_mod_twice(b1 * xi, m);
        lemma_congruent_sum((b1 * xi) % m, b1 * xi, bf, bf);
        lemma_mod_twice(b1 * xi + bf, m);
        lemma_congruent_product(-1, -1, b0, b1 * xi + bf);
        lemma_congruent_sum(a0, a1 * xi + af, -1 * b0, -1 * (b1 * xi + bf));
        assert((a1 - b1) * xi + (af - bf) == (a1 * xi + af) + -1 * (b1 * xi + bf))
            by (nonlinear_arith);
        assert(a0 - b0 == a0 + -1 * b0) by (nonlinear_arith);
    }
}

/// A number below the group order whose product with a unit is zero is zero.
pub proof fn lemma_unit_cancels(v: nat, u: nat)
    requires
        v < group_order(),
        is_unit(u),
        scalar_mul(v, u) == 0,
    ensures
        v == 0,
{
    let m = group_order() as int;
    let inv = scalar_inv(u) as int;
    let vi = v as int;
    let ui = u as int;
    lemma_order_bounds();
    lemma_small_mod(v, group_order());
    lemma_small_mod(1, group_order());
    lemma_small_mod(0, group_order());
    // v = v * 1 = v * (u * inv) = (v * u) * inv = 0 * inv = 0
    lemma_congruent_product(vi, vi, 1, ui * inv);
    lemma_congruent_product(vi * ui, 0, inv, inv);
    assert(vi * (ui * inv) == (vi * ui) * inv) by (nonlinear_arith);
    assert(vi * 1 == vi) by (nonlinear_arith);
    assert(0 * inv == 0) by (nonlinear_arith);
}

/// The quotient of the polynomial `d` by `x − r`, where `r` is a root of `d`.
pub open spec fn linear_quotient(d: Seq<nat>, r: nat) -> Seq<nat> {
    Seq::new((d.len() - 1) as nat, |t: int| poly_eval_from(d, r, t + 1))
}

/// The quotient of a polynomial by `x − r`, where `r` is a root of it, times `x − r` is
/// the polynomial again.
pub proof fn lemma_linear_quotient(d: Seq<nat>, r: nat)
    requires
        d.len() >= 1,
        poly_eval(d, r) == 0,
    ensures
        times_linear(linear_quotient(d, r), r).len() == d.len(),
        forall|t: int|
            0 <= t < d.len() ==> (#[trigger] times_linear(linear_quotient(d, r), r)[t])
                % group_order() == d[t] % group_order(),
{
    let m = group_order() as int;
    let q = linear_quotient(d, r);
    let prod = times_linear(q, r);
    let ri = r as int;
    lemma_order_bounds();
    assert forall|t: int| 0 <= t < d.len() implies (#[trigger] prod[t]) % group_order() == d[t]
        % group_order() by {
        let e0 = poly_eval_from(d, r, t) as int;
        let e1 = poly_eval_from(d, r, t + 1) as int;
        let lo = (if t > 0 {
            q[t - 1]
        } else {
            0
        }) as int;
        let hi = (if t < q.len() {
            q[t]
        } else {
            0
        }) as int;
        assert(hi == e1);
        assert(lo == e0);
        assert(prod[t] == scalar_sub(lo as nat, scalar_mul(r, hi as nat)));
        lemma_scalar_sub_is_difference(lo as nat, scalar_mul(r, hi as nat));
        lemma_sub_mod_noop_right(lo, ri * hi, m);
        lemma_mod_twice(lo - ri * hi, m);
        assert(prod[t] as int % m == (e0 - ri * e1) % m);
        // e0 is e1 * r + d[t]
        assert(e0 == ((e1 * ri) % m + d[t]) % m);
        lemma_mod_twice(e1 * ri, m);
        lemma_congruent_sum((e1 * ri) % m, e1 * ri, d[t] as int, d[t] as int);
        lemma_mod_twice(e1 * ri + d[t], m);
        lemma_congruent_sum(e0, e1 * ri + d[t], -(ri * e1), -(ri * e1));
        assert(e1 * ri + d[t] + -(ri * e1) == d[t]) by (nonlinear_arith);
        assert(e0 + -(ri * e1) == e0 - ri * e1);
    }
}

/// A polynomial with as many coefficients as it has roots, the differences of which
/// are invertible, has coefficients that are multiples of the group order only.
pub proof fn lemma_vanishing_polynomial(d: Seq<nat>, xs: Seq<nat>)
    requires
        d.len() == xs.len(),
        forall|i: int| 0 <= i < xs.len() ==> poly_eval(d, #[trigger] xs[i]) == 0,
        forall|i: int, j: int|
            0 <= i < xs.len() && 0 <= j < xs.len() && i != j ==> is_unit(
                #[trigger] scalar_sub(xs[i], xs[j]),
            ),
    ensures
        forall|t: int| 0 <= t < d.len() ==> (#[trigger] d[t]) % group_order() == 0,
    decreases d.len(),
{
    let m = group_order() as int;
    lemma_order_bounds();
    lemma_small_mod(0, group_order());
    if d.len() > 0 {
        let k = d.len() as int;
        let r = xs[k - 1];
        let q = linear_quotient(d, r);
        let prod = times_linear(q, r);
        let rest = xs.take(k - 1);
        assert(poly_eval(d, xs[k - 1]) == 0);
        lemma_linear_quotient(d, r);
        assert forall|i: int| 0 <= i < rest.len() implies poly_eval(q, #[trigger] rest[i])
            == 0 by {
            let x = xs[i];
            assert(rest[i] == x);
            assert(poly_eval(d, xs[i]) == 0);
            lemma_eval_congruent(prod, d, x, 0);
            lemma_times_linear_eval(q, r, x);
            lemma_poly_eval_bound(q, x, 0);
            assert(is_unit(scalar_sub(xs[i], xs[k - 1])));
            lemma_unit_cancels(poly_eval(q, x), scalar_sub(x, r));
        }
        assert forall|i: int, j: int|
            0 <= i < rest.len() && 0 <= j < rest.len() && i != j implies is_unit(
            #[trigger] scalar_sub(rest[i], rest[j]),
        ) by {
            assert(is_unit(scalar_sub(xs[i], xs[j])));
        }
        lemma_vanishing_polynomial(q, rest);
        assert forall|t: int| 0 <= t < d.len() implies (#[trigger] d[t]) % group_order()
            == 0 by {
            let e0 = poly_eval_from(d, r, t);
            let e1 = poly_eval_from(d, r, t + 1);
            lemma_poly_eval_bound(d, r, t + 1);
            if t + 1 < k {
                assert(q[t] == e1);
                assert(q[t] % group_order() == 0);
                lemma_small_mod(e1, group_order());
            }
            assert(e1 == 0);
            if t > 0 {
                lemma_poly_eval_bound(d, r, t);
                assert(q[t - 1] == e0);
                assert(q[t - 1] % group_order() == 0);
                lemma_small_mod(e0, group_order());
            }
            assert(e0 == 0);
            assert(0 * r == 0) by (nonlinear_arith);
            assert(e0 == scalar_add(scalar_mul(e1, r), d[t]));
        }
    }
}

/// Lagrange's polynomial through points of a polynomial `p` with as many coefficients
/// as there are points has the coefficients of `p`, reduced modulo the group order,
/// wherever the differences of the indices are invertible.
pub proof fn lemma_interpolant_reproduces(xs: Seq<nat>, ys: Seq<nat>, p: Seq<nat>)
    requires
        xs.len() == ys.len(),
        p.len() == xs.len(),
        invertible_differences(xs),
        forall|i: int| 0 <= i < xs.len() ==> #[trigger] ys[i] % group_order() == poly_eval(p, xs[i]),
    ensures
        interpolant(xs, ys).len() == p.len(),
        forall|t: int|
            0 <= t < p.len() ==> (#[trigger] interpolant(xs, ys)[t]) % group_order() == p[t]
                % group_order(),
{
    let m = group_order() as int;
    let f = interpolant(xs, ys);
    lemma_order_bounds();
    lemma_interpolant_len(xs, ys, xs.len());
    let d = difference(f, p);
    assert forall|i: int| 0 <= i < xs.len() implies poly_eval(d, #[trigger] xs[i]) == 0 by {
        lemma_denominator_is_unit(xs, i, xs.len());
        lemma_interpolant_passes_through(xs, ys, i);
        lemma_difference_eval(f, p, xs[i], 0);
        assert(ys[i] % group_order() == poly_eval(p, xs[i]));
        lemma_small_mod(0, group_order());
    }
    lemma_vanishing_polynomial(d, xs);
    assert forall|t: int| 0 <= t < p.len() implies (#[trigger] f[t]) % group_order() == p[t]
        % group_order() by {
        assert(d[t] % group_order() == 0);
        lemma_scalar_sub_is_difference(f[t], p[t]);
        lemma_mod_twice(f[t] - p[t], m);
        lemma_small_mod(0, group_order());
        lemma_congruent_sum(f[t] - p[t], 0, p[t] as int, p[t] as int);
    }
}

/// The coefficients of Lagrange's polynomial through at least one point are below the
/// group order.
pub proof fn lemma_interpolant_reduced(xs: Seq<nat>, ys: Seq<nat>, t: int)
    requires
        xs.len() >= 1,
        0 <= t < xs.len(),
    ensures
        interpolant(xs, ys).len() == xs.len(),
        interpolant(xs, ys)[t] < group_order(),
{
    lemma_order_bounds();
    lemma_interpolant_len(xs, ys, xs.len());
    lemma_interpolant_len(xs, ys, (xs.len() - 1) as nat);
    let before = interpolant_sum(xs, ys, (xs.len() - 1) as nat);
    let numerator = basis_numerator(xs, xs.len() - 1, xs.len());
    let scale = scalar_mul(
        ys[xs.len() - 1],
        scalar_inv(basis_denominator(xs, xs.len() - 1, xs.len())),
    );
    let term = scalar_mul(scale, coefficient_at(numerator, t));
    lemma_mod_bound((before[t] + term) as int, group_order() as int);
    assert(interpolant(xs, ys)[t] == scalar_add(before[t], term));
}

/// At zero the value of the upper coefficients of a polynomial is the first of them.
pub proof fn lemma_eval_at_zero(p: Seq<nat>, from: int)
    requires
        0 <= from,
    ensures
        poly_eval_from(p, 0, from) == coefficient_at(p, from) % group_order(),
{
    lemma_order_bounds();
    lemma_small_mod(0, group_order());
    if from < p.len() {
        assert(poly_eval_from(p, 0, from + 1) * 0 == 0) by (nonlinear_arith);
    }
}

/// The value at zero of the `i`-th basis polynomial over the first `n` indices, times
/// its denominator, is its numerator at zero.
pub proof fn lemma_basis_times_denominator(xs: Seq<nat>, i: int, n: nat)
    requires
        0 <= i < xs.len(),
        n <= xs.len(),
        forall|j: int|
            0 <= j < xs.len() && j != i ==> is_unit(#[trigger] scalar_sub(xs[j], xs[i])),
    ensures
        scalar_mul(lagrange_basis(xs, i, n), basis_denominator(xs, i, n)) == numerator_value(
            xs,
            i,
            n,
            0,
        ) % group_order(),
    decreases n,
{
    let m = group_order() as int;
    lemma_order_bounds();
    lemma_small_mod(1, group_order());
    if n == 0 {
        assert(1 * 1 == 1) by (nonlinear_arith);
    } else {
        lemma_basis_times_denominator(xs, i, (n - 1) as nat);
        let a = lagrange_basis(xs, i, (n - 1) as nat) as int;
        let b = basis_denominator(xs, i, (n - 1) as nat) as int;
        let c = numerator_value(xs, i, (n - 1) as nat, 0) as int;
        assert((a * b) % m == c % m);
        if n - 1 != i {
            let j = n - 1;
            let xj = xs[j] as int;
            let xi = xs[i] as int;
            let w = scalar_sub(xs[j], xs[i]) as int;
            let iw = scalar_inv(scalar_sub(xs[j], xs[i])) as int;
            let diff = scalar_sub(xs[i], xs[j]) as int;
            let neg = scalar_sub(0, xs[j]) as int;
            let factor = scalar_mul(xs[j], scalar_inv(scalar_sub(xs[j], xs[i]))) as int;
            let lb = lagrange_basis(xs, i, n) as int;
            let d = basis_denominator(xs, i, n) as int;
            let nv = numerator_value(xs, i, n, 0) as int;
            assert(is_unit(scalar_sub(xs[j], xs[i])));
            assert((w * iw) % m == 1);
            // The three factors, up to congruence.
            lemma_scalar_sub_is_difference(xs[j], xs[i]);
            lemma_scalar_sub_is_difference(xs[i], xs[j]);
            lemma_scalar_sub_is_difference(0, xs[j]);
            lemma_mod_twice(xj - xi, m);
            lemma_mod_twice(xi - xj, m);
            lemma_mod_twice(0 - xj, m);
            lemma_congruent_product(-1, -1, w, xj - xi);
            assert(-1 * (xj - xi) == xi - xj) by (nonlinear_arith);
            assert(diff % m == (-1 * w) % m);
            assert(neg % m == (-1 * xj) % m) by {
                assert(0 - xj == -1 * xj) by (nonlinear_arith);
            }
            lemma_mod_twice(xj * iw, m);
            assert(factor % m == (xj * iw) % m);
            // lb * d
            lemma_congruent_product(a, a, factor, xj * iw);
            lemma_mod_twice(a * factor, m);
            assert(lb % m == (a * (xj * iw)) % m);
            lemma_congruent_product(b, b, diff, -1 * w);
            lemma_mod_twice(b * diff, m);
            assert(d % m == (b * (-1 * w)) % m);
            lemma_congruent_product(lb, a * (xj * iw), d, b * (-1 * w));
            assert((a * (xj * iw)) * (b * (-1 * w)) == (a * b) * ((w * iw) * (-1 * xj)))
                by (nonlinear_arith);
            lemma_congruent_product(w * iw, 1, -1 * xj, -1 * xj);
            lemma_congruent_product(a * b, c, (w * iw) * (-1 * xj), 1 * (-1 * xj));
            assert(1 * (-1 * xj) == -1 * xj) by (nonlinear_arith);
            // nv
            lemma_congruent_product(c, c, neg, -1 * xj);
            lemma_mod_twice(c * neg, m);
            assert(nv % m == (c * (-1 * xj)) % m);
            assert((lb * d) % m == nv % m);
        }
    }
}

/// The value at zero of the `i`-th basis polynomial is its numerator at zero times the
/// inverse of its denominator.
pub proof fn lemma_basis_at_zero(xs: Seq<nat>, i: int)
    requires
        0 <= i < xs.len(),
        invertible_differences(xs),
    ensures
        lagrange_basis(xs, i, xs.len()) % group_order() == scalar_mul(
            scalar_inv(basis_denominator(xs, i, xs.len())),
            numerator_value(xs, i, xs.len(), 0),
        ),
{
    let m = group_order() as int;
    let lb = lagrange_basis(xs, i, xs.len()) as int;
    let d = basis_denominator(xs, i, xs.len()) as int;
    let inv = scalar_inv(basis_denominator(xs, i, xs.len())) as int;
    let nv = numerator_value(xs, i, xs.len(), 0) as int;
    lemma_order_bounds();
    lemma_small_mod(1, group_order());
    assert forall|j: int| 0 <= j < xs.len() && j != i implies is_unit(
        #[trigger] scalar_sub(xs[j], xs[i]),
    ) by {}
    lemma_basis_times_denominator(xs, i, xs.len());
    lemma_denominator_is_unit(xs, i, xs.len());
    // lb = lb * (d * inv) = (lb * d) * inv = nv * inv
    lemma_congruent_product(lb, lb, 1, d * inv);
    assert(lb * 1 == lb) by (nonlinear_arith);
    assert(lb * (d * inv) == (lb * d) * inv) by (nonlinear_arith);
    lemma_mod_twice(nv, m);
    lemma_congruent_product(lb * d, nv, inv, inv);
    assert(nv * inv == inv * nv) by (nonlinear_arith);
}

/// The sum over the first `n` points of `ys[i]` times the value at `x` of the `i`-th
/// basis polynomial.
pub open spec fn lagrange_sum(xs: Seq<nat>, ys: Seq<nat>, n: nat, x: nat) -> nat
    decreases n,
{
    if n == 0 {
        0
    } else {
        scalar_add(
            lagrange_sum(xs, ys, (n - 1) as nat, x),
            scalar_mul(
                scalar_mul(ys[n - 1], scalar_inv(basis_denominator(xs, n - 1, xs.len()))),
                numerator_value(xs, n - 1, xs.len(), x),
            ),
        )
    }
}

/// The value of the sum of the first `n` terms of Lagrange's polynomial is the sum of
/// the values of the terms.
pub proof fn lemma_interpolant_sum_eval(xs: Seq<nat>, ys: Seq<nat>, n: nat, x: nat)
    requires
        n <= xs.len(),
    ensures
        poly_eval(interpolant_sum(xs, ys, n), x) == lagrange_sum(xs, ys, n, x),
    decreases n,
{
    if n == 0 {
        lemma_zero_polynomial_eval(xs.len(), x, 0);
    } else {
        let i = n - 1;
        lemma_interpolant_sum_eval(xs, ys, (n - 1) as nat, x);
        lemma_interpolant_len(xs, ys, (n - 1) as nat);
        lemma_basis_numerator_len(xs, i, xs.len());
        lemma_plus_scaled_eval(
            interpolant_sum(xs, ys, (n - 1) as nat),
            basis_numerator(xs, i, xs.len()),
            scalar_mul(ys[i], scalar_inv(basis_denominator(xs, i, xs.len()))),
            x,
        );
        lemma_basis_numerator_eval(xs, i, xs.len(), x);
    }
}

/// Lagrange's formula at zero is the sum of the values at zero of the terms of
/// Lagrange's polynomial, wherever the differences of the indices are invertible.
pub proof fn lemma_interpolation_sum_is_lagrange_sum(xs: Seq<nat>, ys: Seq<nat>, n: nat)
    requires
        n <= xs.len(),
        invertible_differences(xs),
    ensures
        interpolation_sum(xs, ys, n) == lagrange_sum(xs, ys, n, 0),
    decreases n,
{
    let m = group_order() as int;
    lemma_order_bounds();
    if n > 0 {
        let i = n - 1;
        lemma_interpolation_sum_is_lagrange_sum(xs, ys, (n - 1) as nat);
        lemma_basis_at_zero(xs, i);
        let y = ys[i] as int;
        let lb = lagrange_basis(xs, i, xs.len()) as int;
        let inv = scalar_inv(basis_denominator(xs, i, xs.len())) as int;
        let nv = numerator_value(xs, i, xs.len(), 0) as int;
        let before = interpolation_sum(xs, ys, (n - 1) as nat) as int;
        // y * lb = y * (inv * nv) = (y * inv) * nv
        lemma_mod_twice(inv * nv, m);
        assert(lb % m == (inv * nv) % m);
        lemma_congruent_product(y, y, lb, inv * nv);
        lemma_mod_twice(y * inv, m);
        lemma_congruent_product((y * inv) % m, y * inv, nv, nv);
        assert(y * (inv * nv) == (y * inv) * nv) by (nonlinear_arith);
        let left = scalar_mul(ys[i], lagrange_basis(xs, i, xs.len()));
        let right = scalar_mul(
            scalar_mul(ys[i], scalar_inv(basis_denominator(xs, i, xs.len()))),
            numerator_value(xs, i, xs.len(), 0),
        );
        assert(left == right);
    }
}

/// Lagrange's formula at zero gives the constant term of Lagrange's polynomial,
/// wherever the differences of the indices are invertible.
pub proof fn lemma_interpolate_at_zero_is_constant_term(xs: Seq<nat>, ys: Seq<nat>)
    requires
        xs.len() >= 1,
        invertible_differences(xs),
    ensures
        interpolate_at_zero(xs, ys) == interpolant(xs, ys)[0],
{
    lemma_order_bounds();
    lemma_interpolation_sum_is_lagrange_sum(xs, ys, xs.len());
    lemma_interpolant_sum_eval(xs, ys, xs.len(), 0);
    lemma_eval_at_zero(interpolant(xs, ys), 0);
    lemma_interpolant_reduced(xs, ys, 0);
    lemma_small_mod(interpolant(xs, ys)[0], group_order());
}

/// Interpolating at zero points of a polynomial `p` with as many coefficients as there
/// are points gives the constant term of `p`, wherever the differences of the indices
/// are invertible.
pub proof fn lemma_interpolation_recovers_constant_term(xs: Seq<nat>, ys: Seq<nat>, p: Seq<nat>)
    requires
        xs.len() >= 1,
        xs.len() == ys.len(),
        p.len() == xs.len(),
        invertible_differences(xs),
        forall|i: int| 0 <= i < xs.len() ==> #[trigger] ys[i] % group_order() == poly_eval(p, xs[i]),
    ensures
        interpolate_at_zero(xs, ys) == p[0] % group_order(),
{
    lemma_order_bounds();
    lemma_interpolate_at_zero_is_constant_term(xs, ys);
    lemma_interpolant_reproduces(xs, ys, p);
    lemma_interpolant_reduced(xs, ys, 0);
    lemma_small_mod(interpolant(xs, ys)[0], group_order());
}

/// A number below the group order whose product with a unit is one is the inverse of
/// that unit.
pub proof fn lemma_inverse_unique(a: nat, t: nat)
    requires
        is_unit(a),
        t < group_order(),
        scalar_mul(a, t) == 1,
    ensures
        t == scalar_inv(a),
{
    let m = group_order() as int;
    let inv = scalar_inv(a) as int;
    let ai = a as int;
    let ti = t as int;
    lemma_order_bounds();
    lemma_pow_mod_bound(a, (group_order() - 2) as nat);
    lemma_small_mod(t, group_order());
    lemma_small_mod(scalar_inv(a), group_order());
    lemma_small_mod(1, group_order());
    // t = t * (a * inv) = (a * t) * inv = inv
    lemma_congruent_product(ti, ti, 1, ai * inv);
    lemma_congruent_product(ai * ti, 1, inv, inv);
    assert(ti * (ai * inv) == (ai * ti) * inv) by (nonlinear_arith);
    assert(ti * 1 == ti) by (nonlinear_arith);
    assert(1 * inv == inv) by (nonlinear_arith);
}

/// The polynomial `p` with every coefficient multiplied by `c`.
pub open spec fn scaled_polynomial(p: Seq<nat>, c: nat) -> Seq<nat> {
    plus_scaled(Seq::new(p.len(), |t: int| 0nat), p, c)
}

/// The value of a scaled polynomial is the scaled value.
pub proof fn lemma_scaled_polynomial_eval(p: Seq<nat>, c: nat, x: nat)
    ensures
        scaled_polynomial(p, c).len() == p.len(),
        poly_eval(scaled_polynomial(p, c), x) == scalar_mul(poly_eval(p, x), c),
{
    let m = group_order() as int;
    lemma_order_bounds();
    let zero = Seq::new(p.len(), |t: int| 0nat);
    lemma_zero_polynomial_eval(p.len(), x, 0);
    lemma_plus_scaled_eval(zero, p, c, x);
    let v = poly_eval(p, x) as int;
    lemma_mod_twice(c * v, m);
    assert(c * v == v * c) by (nonlinear_arith);
}

/// The coefficients of the product of the polynomial with the coefficients `a[from..]`
/// and the polynomial `b`.
pub open spec fn poly_mul_from(a: Seq<nat>, b: Seq<nat>, from: int) -> Seq<nat>
    decreases a.len() - from,
{
    if from >= a.len() || from < 0 {
        Seq::new((b.len() - 1) as nat, |t: int| 0nat)
    } else {
        plus_scaled(times_linear(poly_mul_from(a, b, from + 1), 0), b, a[from])
    }
}

/// The coefficients of the product of two polynomials.
pub open spec fn poly_mul(a: Seq<nat>, b: Seq<nat>) -> Seq<nat> {
    poly_mul_from(a, b, 0)
}

/// The product of polynomials with `n` and `m` coefficients has `n + m − 1`.
pub proof fn lemma_poly_mul_len(a: Seq<nat>, b: Seq<nat>, from: int)
    requires
        b.len() >= 1,
        0 <= from <= a.len(),
    ensures
        poly_mul_from(a, b, from).len() == a.len() - from + b.len() - 1,
    decreases a.len() - from,
{
    if from < a.len() {
        lemma_poly_mul_len(a, b, from + 1);
    }
}

/// The value of a product of polynomials is the product of their values.
pub proof fn lemma_poly_mul_eval(a: Seq<nat>, b: Seq<nat>, x: nat, from: int)
    requires
        b.len() >= 1,
        0 <= from <= a.len(),
    ensures
        poly_eval(poly_mul_from(a, b, from), x) == scalar_mul(
            poly_eval_from(a, x, from),
            poly_eval(b, x),
        ),
    decreases a.len() - from,
{
    let m = group_order() as int;
    lemma_order_bounds();
    lemma_small_mod(0, group_order());
    let bv = poly_eval(b, x) as int;
    if from == a.len() {
        lemma_zero_polynomial_eval((b.len() - 1) as nat, x, 0);
        assert(0 * bv == 0) by (nonlinear_arith);
    } else {
        let rest = poly_mul_from(a, b, from + 1);
        let shifted = times_linear(rest, 0);
        lemma_poly_mul_eval(a, b, x, from + 1);
        lemma_poly_mul_len(a, b, from + 1);
        lemma_times_linear_eval(rest, 0, x);
        lemma_plus_scaled_eval(shifted, b, a[from], x);
        let a1 = poly_eval_from(a, x, from + 1) as int;
        let a0 = poly_eval_from(a, x, from) as int;
        let af = a[from] as int;
        let xi = x as int;
        let rv = poly_eval(rest, x) as int;
        let sv = poly_eval(shifted, x) as int;
        let x0 = scalar_sub(x, 0) as int;
        lemma_scalar_sub_is_difference(x, 0);
        lemma_mod_twice(xi, m);
        assert(x0 % m == xi % m);
        // shifted = rest * x = (a1 * b) * x
        lemma_mod_twice(a1 * bv, m);
        lemma_congruent_product(rv, a1 * bv, x0, xi);
        lemma_mod_twice(rv * x0, m);
        assert(sv % m == ((a1 * bv) * xi) % m);
        // the whole
        lemma_mod_twice(af * bv, m);
        lemma_congruent_sum(sv, (a1 * bv) * xi, (af * bv) % m, af * bv);
        // a0 = a1 * x + af
        assert(a0 == ((a1 * xi) % m + af) % m);
        lemma_mod_twice(a1 * xi, m);
        lemma_congruent_sum((a1 * xi) % m, a1 * xi, af, af);
        lemma_mod_twice(a1 * xi + af, m);
        lemma_congruent_product(a0, a1 * xi + af, bv, bv);
        assert((a1 * bv) * xi + af * bv == (a1 * xi + af) * bv) by (nonlinear_arith);
    }
}

/// The sum of the product of `a` and `b` and the polynomial `z`.
pub open spec fn masked_product(a: Seq<nat>, b: Seq<nat>, z: Seq<nat>) -> Seq<nat> {
    plus_scaled(poly_mul(a, b), z, 1)
}

/// The value of the masked product is the product of the values of `a` and `b` plus
/// the value of `z`; it has as many coefficients as the product.
pub proof fn lemma_masked_product_eval(a: Seq<nat>, b: Seq<nat>, z: Seq<nat>, x: nat)
    requires
        a.len() >= 1,
        b.len() >= 1,
        z.len() <= a.len() + b.len() - 1,
    ensures
        masked_product(a, b, z).len() == a.len() + b.len() - 1,
        poly_eval(masked_product(a, b, z), x) == scalar_add(
            scalar_mul(poly_eval(a, x), poly_eval(b, x)),
            poly_eval(z, x),
        ),
{
    let m = group_order() as int;
    lemma_order_bounds();
    lemma_poly_mul_len(a, b, 0);
    lemma_poly_mul_eval(a, b, x, 0);
    lemma_plus_scaled_eval(poly_mul(a, b), z, 1, x);
    lemma_poly_eval_bound(z, x, 0);
    let zv = poly_eval(z, x);
    assert(1 * zv == zv) by (nonlinear_arith);
    lemma_small_mod(zv, group_order());
}

/// Evaluates a polynomial, given by its coefficients from the lowest degree up, at `x`.
pub fn poly_eval_scalars(coeffs: &[Scalar], x: &Scalar) -> (r: Scalar)
    ensures
        r@ == poly_eval(scalar_values(coeffs@), x@),
{
    let mut acc = Scalar::zero();
    let mut i: usize = coeffs.len();
    while i > 0
        invariant
            i <= coeffs.len(),
            acc@ == poly_eval_from(scalar_values(coeffs@), x@, i as int),
        decreases i,
    {
        i -= 1;
        acc = acc.mul(x).add(&coeffs[i]);
    }
    acc
}

fn lagrange_basis_at_zero(indices: &[Scalar], i: usize) -> (r: Scalar)
    requires
        i < indices.len(),
    ensures
        r@ == lagrange_basis(scalar_values(indices@), i as int, indices.len() as nat),
{
    let mut acc = Scalar::one();
    let mut j: usize = 0;
    while j < indices.len()
        invariant
            j <= indices.len(),
            i < indices.len(),
            acc@ == lagrange_basis(scalar_values(indices@), i as int, j as nat),
        decreases indices.len() - j,
    {
        if j != i {
            let difference = indices[j].sub(&indices[i]);
            let factor = indices[j].mul(&difference.inverse());
            acc = acc.mul(&factor);
        }
        j += 1;
    }
    acc
}

/// Interpolates the points `(indices[i], values[i])` at zero.
pub fn interpolate_scalars_at_zero(indices: &[Scalar], values: &[Scalar]) -> (r: Scalar)
    requires
        indices.len() == values.len(),
    ensures
        r@ == interpolate_at_zero(scalar_values(indices@), scalar_values(values@)),
{
    let mut acc = Scalar::zero();
    let mut i: usize = 0;
    while i < indices.len()
        invariant
            i <= indices.len(),
            indices.len() == values.len(),
            acc@ == interpolation_sum(
                scalar_values(indices@),
                scalar_values(values@),
                i as nat,
            ),
        decreases indices.len() - i,
    {
        let basis = lagrange_basis_at_zero(indices, i);
        acc = acc.add(&values[i].mul(&basis));
        i += 1;
    }
    acc
}

/// Interpolates shares at zero: the secret of the sharing that they belong to.
pub fn interpolate_shares_at_zero(shares: &[Share]) -> (r: Scalar)
    ensures
        r@ == interpolate_at_zero(share_indices(shares@), share_values(shares@)),
{
    let mut indices: Vec<Scalar> = Vec::with_capacity(shares.len());
    let mut values: Vec<Scalar> = Vec::with_capacity(shares.len());
    let mut i: usize = 0;
    while i < shares.len()
        invariant
            i <= shares.len(),
            indices.len() == i,
            values.len() == i,
            forall|j: int| 0 <= j < i ==> indices@[j] == shares@[j].index,
            forall|j: int| 0 <= j < i ==> values@[j] == shares@[j].value,
        decreases shares.len() - i,
    {
        indices.push(shares[i].index);
        values.push(shares[i].value);
        i += 1;
    }
    assert(scalar_values(indices@) =~= share_indices(shares@));
    assert(scalar_values(values@) =~= share_values(shares@));
    interpolate_scalars_at_zero(indices.as_slice(), values.as_slice())
}

/// A vector of `len` zeros.
pub fn zeros(len: usize) -> (r: Vec<Scalar>)
    ensures
        r.len() == len,
        forall|i: int| 0 <= i < len ==> (#[trigger] r@[i])@ == 0,
{
    let mut v: Vec<Scalar> = Vec::with_capacity(len);
    let mut i: usize = 0;
    while i < len
        invariant
            i <= len,
            v.len() == i,
            forall|j: int| 0 <= j < i ==> (#[trigger] v@[j])@ == 0,
        decreases len - i,
    {
        v.push(Scalar::zero());
        i += 1;
    }
    v
}

fn polynomial_times_linear(p: &Vec<Scalar>, a: &Scalar) -> (r: Vec<Scalar>)
    requires
        p.len() < usize::MAX,
    ensures
        scalar_values(r@) == times_linear(scalar_values(p@), a@),
{
    let n = p.len();
    let mut out: Vec<Scalar> = Vec::with_capacity(n + 1);
    let mut t: usize = 0;
    while t <= n
        invariant
            t <= n + 1,
            n == p.len(),
            n < usize::MAX,
            out.len() == t,
            forall|u: int|
                0 <= u < t ==> (#[trigger] out@[u])@ == times_linear(scalar_values(p@), a@)[u],
        decreases n + 1 - t,
    {
        let low = if t > 0 {
            p[t - 1]
        } else {
            Scalar::zero()
        };
        let high = if t < n {
            p[t]
        } else {
            Scalar::zero()
        };
        out.push(low.sub(&a.mul(&high)));
        t += 1;
    }
    assert(scalar_values(out@) =~= times_linear(scalar_values(p@), a@));
    out
}

fn polynomial_plus_scaled(acc: &Vec<Scalar>, p: &Vec<Scalar>, s: &Scalar) -> (r: Vec<Scalar>)
    ensures
        scalar_values(r@) == plus_scaled(scalar_values(acc@), scalar_values(p@), s@),
{
    let mut out: Vec<Scalar> = Vec::with_capacity(acc.len());
    let mut t: usize = 0;
    while t < acc.len()
        invariant
            t <= acc.len(),
            out.len() == t,
            forall|u: int|
                0 <= u < t ==> (#[trigger] out@[u])@ == plus_scaled(
                    scalar_values(acc@),
                    scalar_values(p@),
                    s@,
                )[u],
        decreases acc.len() - t,
    {
        let term = if t < p.len() {
            p[t]
        } else {
            Scalar::zero()
        };
        out.push(acc[t].add(&s.mul(&term)));
        t += 1;
    }
    assert(scalar_values(out@) =~= plus_scaled(scalar_values(acc@), scalar_values(p@), s@));
    out
}

fn basis_polynomial(xs: &[Scalar], i: usize) -> (r: (Vec<Scalar>, Scalar))
    requires
        i < xs.len(),
    ensures
        scalar_values(r.0@) == basis_numerator(scalar_values(xs@), i as int, xs.len() as nat),
        r.1@ == basis_denominator(scalar_values(xs@), i as int, xs.len() as nat),
{
    let n = xs.len();
    let mut numerator: Vec<Scalar> = Vec::with_capacity(n);
    numerator.push(Scalar::one());
    assert(scalar_values(numerator@) =~= seq![1nat]);
    let mut denominator = Scalar::one();
    let mut j: usize = 0;
    while j < n
        invariant
            j <= n,
            i < n,
            n == xs.len(),
            numerator.len() == if j <= i {
                j + 1
            } else {
                j as int
            },
            scalar_values(numerator@) == basis_numerator(scalar_values(xs@), i as int, j as nat),
            denominator@ == basis_denominator(scalar_values(xs@), i as int, j as nat),
        decreases n - j,
    {
        if j != i {
            numerator = polynomial_times_linear(&numerator, &xs[j]);
            denominator = denominator.mul(&xs[i].sub(&xs[j]));
            assert(numerator.len() == scalar_values(numerator@).len());
        }
        j += 1;
    }
    (numerator, denominator)
}

/// Interpolates the points `(xs[i], ys[i])`: the coefficients, lowest degree first and
/// as many as there are points, of the polynomial through them.
pub fn interpolate_polynomial(xs: &[Scalar], ys: &[Scalar]) -> (r: Vec<Scalar>)
    requires
        xs.len() == ys.len(),
    ensures
        scalar_values(r@) == interpolant(scalar_values(xs@), scalar_values(ys@)),
        r.len() == xs.len(),
{
    let n = xs.len();
    let mut acc = zeros(n);
    assert(scalar_values(acc@) =~= Seq::new(scalar_values(xs@).len(), |t: int| 0nat));
    let mut i: usize = 0;
    while i < n
        invariant
            i <= n,
            n == xs.len(),
            n == ys.len(),
            scalar_values(acc@) == interpolant_sum(
                scalar_values(xs@),
                scalar_values(ys@),
                i as nat,
            ),
        decreases n - i,
    {
        let (numerator, denominator) = basis_polynomial(xs, i);
        let scale = ys[i].mul(&denominator.inverse());
        acc = polynomial_plus_scaled(&acc, &numerator, &scale);
        i += 1;
    }
    proof {
        lemma_interpolant_len(scalar_values(xs@), scalar_values(ys@), n as nat);
        assert(acc.len() == scalar_values(acc@).len());
    }
    acc
}

/// Checks that the differences of any two of the indices have inverses that invert
/// them: the condition under which interpolation at these indices means what it says.
pub fn differences_are_invertible(xs: &[Scalar]) -> (r: bool)
    ensures
        r == invertible_differences(scalar_values(xs@)),
{
    let ghost values = scalar_values(xs@);
    let one = Scalar::one();
    let mut i: usize = 0;
    while i < xs.len()
        invariant
            i <= xs.len(),
            values == scalar_values(xs@),
            one@ == 1,
            forall|a: int, b: int|
                0 <= a < i && 0 <= b < xs.len() && a != b ==> is_unit(
                    #[trigger] scalar_sub(values[a], values[b]),
                ),
        decreases xs.len() - i,
    {
        let mut j: usize = 0;
        while j < xs.len()
            invariant
                i < xs.len(),
                j <= xs.len(),
                values == scalar_values(xs@),
                one@ == 1,
                forall|a: int, b: int|
                    0 <= a < i && 0 <= b < xs.len() && a != b ==> is_unit(
                        #[trigger] scalar_sub(values[a], values[b]),
                    ),
                forall|b: int|
                    0 <= b < j && b != i ==> is_unit(
                        #[trigger] scalar_sub(values[i as int], values[b]),
                    ),
            decreases xs.len() - j,
        {
            if j != i {
                let difference = xs[i].sub(&xs[j]);
                if !difference.mul(&difference.inverse()).eq(&one) {
                    assert(!is_unit(scalar_sub(values[i as int], values[j as int])));
                    return false;
                }
            }
            j += 1;
        }
        i += 1;
    }
    true
}

} // verus!
