//! Inversion of a sharing: from the opened product of a secret and a random mask, and
//! the shares of the mask, to shares of the secret's inverse.

use vstd::prelude::*;
use vstd::arithmetic::div_mod::{lemma_mod_bound, lemma_mod_twice, lemma_small_mod};
use crate::open::{model_indices, model_values};
use crate::scalar::{
    group_order, lemma_congruent_product, lemma_order_bounds, scalar_inv, scalar_mul, Scalar,
};
use crate::sss::{
    interpolate_at_zero, invertible_differences, is_unit, lemma_eval_at_zero,
    lemma_interpolation_recovers_constant_term, lemma_inverse_unique, lemma_poly_eval_bound,
    lemma_scaled_polynomial_eval, poly_eval, scaled_polynomial,
};
use crate::vss::{vshare_scaled, VShare, VShareModel};

verus! {

/// Shares of a mask `r`, scaled by the inverse of the opened product of a secret `alpha`
/// and the mask, interpolate at zero to the inverse of the secret: given as many shares
/// as the polynomial of the mask has coefficients, at indices with invertible
/// differences, and an invertible secret and product.
pub proof fn lemma_scaled_shares_interpolate_to_inverse(
    shares: Seq<VShareModel>,
    scaled: Seq<VShareModel>,
    r_poly: Seq<nat>,
    alpha: nat,
    opened: nat,
)
    requires
        shares.len() >= 1,
        scaled.len() == shares.len(),
        r_poly.len() == shares.len(),
        forall|i: int|
            0 <= i < shares.len() ==> (#[trigger] shares[i]).value == poly_eval(
                r_poly,
                shares[i].index,
            ),
        forall|i: int|
            0 <= i < shares.len() ==> #[trigger] scaled[i] == vshare_scaled(
                shares[i],
                scalar_inv(opened),
            ),
        opened == scalar_mul(alpha, r_poly[0]),
        is_unit(opened),
        is_unit(alpha),
        invertible_differences(model_indices(scaled)),
    ensures
        interpolate_at_zero(model_indices(scaled), model_values(scaled)) == scalar_inv(alpha),
{
    let m = group_order() as int;
    let c = scalar_inv(opened);
    let p = scaled_polynomial(r_poly, c);
    let xs = model_indices(scaled);
    let vs = model_values(scaled);
    lemma_order_bounds();
    lemma_scaled_polynomial_eval(r_poly, c, 0);
    assert forall|i: int| 0 <= i < xs.len() implies #[trigger] vs[i] % group_order()
        == poly_eval(p, xs[i]) by {
        assert(scaled[i] == vshare_scaled(shares[i], c));
        lemma_scaled_polynomial_eval(r_poly, c, xs[i]);
        lemma_poly_eval_bound(p, xs[i], 0);
        lemma_small_mod(vs[i], group_order());
    }
    lemma_interpolation_recovers_constant_term(xs, vs, p);
    // The constant term is the constant term of the mask times the inverse.
    lemma_eval_at_zero(p, 0);
    lemma_eval_at_zero(r_poly, 0);
    let r0 = r_poly[0] as int;
    let ci = c as int;
    let ai = alpha as int;
    let t = p[0] % group_order();
    lemma_mod_bound(p[0] as int, m);
    assert(t == ((r0 % m) * ci) % m);
    lemma_mod_twice(r0, m);
    lemma_congruent_product(r0 % m, r0, ci, ci);
    lemma_mod_twice((r0 % m) * ci, m);
    // alpha * t = (alpha * r0) * c = opened * c = 1
    lemma_congruent_product(ai, ai, t as int, r0 * ci);
    assert(ai * (r0 * ci) == (ai * r0) * ci) by (nonlinear_arith);
    lemma_mod_twice(ai * r0, m);
    lemma_congruent_product((ai * r0) % m, ai * r0, ci, ci);
    assert(scalar_mul(alpha, t) == 1);
    lemma_inverse_unique(alpha, t);
}

/// Scales each share of the mask by the inverse of the opened product of its slot.
/// Shares beyond the last opened value stay as they are.
pub fn inv_transform_mulopen_output(vshare_batch: Vec<VShare>, opened_values: Vec<Scalar>) -> (r:
    Vec<VShare>)
    ensures
        r.len() == vshare_batch.len(),
        forall|i: int|
            0 <= i < r.len() ==> (#[trigger] r@[i])@ == if i < opened_values.len() {
                vshare_scaled(vshare_batch@[i]@, scalar_inv(opened_values@[i]@))
            } else {
                vshare_batch@[i]@
            },
{
    let mut output = vshare_batch;
    let mut i: usize = 0;
    while i < output.len() && i < opened_values.len()
        invariant
            output.len() == vshare_batch.len(),
            i <= output.len(),
            i <= opened_values.len(),
            forall|j: int|
                0 <= j < i ==> (#[trigger] output@[j])@ == vshare_scaled(
                    vshare_batch@[j]@,
                    scalar_inv(opened_values@[j]@),
                ),
            forall|j: int| i <= j < output.len() ==> output@[j] == vshare_batch@[j],
        decreases output.len() - i,
    {
        let inverse = opened_values[i].inverse();
        let mut vshare = output[i];
        vshare.scale_assign_mut(&inverse);
        output[i] = vshare;
        i += 1;
    }
    output
}

} // verus!
