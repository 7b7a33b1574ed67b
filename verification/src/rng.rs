//! Generation of random sharings, and of random sharings of zero, by re-sharing.
//!
//! Every party holds its shares of the coefficients of each dealer's polynomial. It
//! evaluates them at the index of every other party and sends the result there; the
//! recipient opens what it receives and so obtains its share of the output sharing.
//! For a sharing of zero the polynomial is multiplied by the index once more, so that
//! its constant term vanishes.

use vstd::prelude::*;
use vstd::arithmetic::div_mod::{lemma_mod_twice, lemma_small_mod};
use crate::group::{infinity_bytes, Gej};
use crate::scalar::{
    group_order, lemma_congruent_product, lemma_congruent_sum, lemma_order_bounds,
    lemma_scalar_sub_is_difference, scalar_mul,
};
use crate::open::{
    commitment_views, step_outcome, step_state, InstanceParams, OpenError, State,
};
use crate::params::Parameters;
use crate::scalar::Scalar;
use crate::sss::{
    interpolate_at_zero, invertible_differences, lemma_interpolation_recovers_constant_term,
    lemma_plus_scaled_eval, lemma_poly_eval_bound, lemma_scaled_polynomial_eval,
    lemma_times_linear_eval, lemma_zero_polynomial_eval, plus_scaled, poly_eval,
    poly_eval_from, scalar_values, scaled_polynomial, times_linear, Share,
};
use crate::vss::{
    commitment_scaled, commitment_sum, vshare_models, vshare_scaled, vshare_sum,
    SharingCommitment, VShare, VShareModel,
};

verus! {

/// What a [`DirectedVShare`] stands for.
pub struct DirectedVShareModel {
    pub vshare: VShareModel,
    pub to: nat,
}

/// A verifiable share together with the index of the party that it is sent to.
#[derive(Clone, Copy, Debug, PartialEq, Eq)]
pub struct DirectedVShare {
    pub vshare: VShare,
    pub to: Scalar,
}

impl View for DirectedVShare {
    type V = DirectedVShareModel;

    open spec fn view(&self) -> DirectedVShareModel {
        DirectedVShareModel { vshare: self.vshare@, to: self.to@ }
    }
}

/// The value at `x` of the polynomial whose coefficients are the shares
/// `coeffs[from..]`, by Horner's rule from the last coefficient down.
pub open spec fn vshare_horner(coeffs: Seq<VShareModel>, x: nat, from: int) -> VShareModel
    decreases coeffs.len() - from,
{
    if from + 1 >= coeffs.len() {
        coeffs[coeffs.len() - 1]
    } else {
        vshare_sum(vshare_scaled(vshare_horner(coeffs, x, from + 1), x), coeffs[from])
    }
}

/// The value at `x` of the polynomial whose coefficients are the commitment vectors
/// `coeffs[from..]`, by Horner's rule from the last coefficient down.
pub open spec fn commitment_horner(coeffs: Seq<Seq<Seq<u8>>>, x: nat, from: int) -> Seq<Seq<u8>>
    decreases coeffs.len() - from,
{
    if from + 1 >= coeffs.len() {
        coeffs[coeffs.len() - 1]
    } else {
        commitment_sum(
            commitment_scaled(commitment_horner(coeffs, x, from + 1), x),
            coeffs[from],
        )
    }
}

/// The share sent to the party with index `x`: the coefficient shares evaluated at `x`
/// and, for a sharing of zero, multiplied by `x`.
pub open spec fn directed_share(coeffs: Seq<VShareModel>, x: nat, zero: bool) -> DirectedVShareModel {
    let eval = vshare_horner(coeffs, x, 0);
    DirectedVShareModel {
        vshare: if zero {
            vshare_scaled(eval, x)
        } else {
            eval
        },
        to: x,
    }
}

/// The commitment against which the party with index `x` checks the shares sent to it.
pub open spec fn own_commitment(coeffs: Seq<Seq<Seq<u8>>>, x: nat, zero: bool) -> Seq<Seq<u8>> {
    let eval = commitment_horner(coeffs, x, 0);
    if zero {
        commitment_scaled(eval, x)
    } else {
        eval
    }
}

/// The commitment of the output sharing: the constant terms of the coefficient
/// commitments, after the identity for a sharing of zero.
pub open spec fn output_commitment(coeffs: Seq<Seq<Seq<u8>>>, zero: bool) -> Seq<Seq<u8>> {
    let constants = Seq::new(coeffs.len(), |i: int| coeffs[i][0]);
    if zero {
        seq![infinity_bytes()] + constants
    } else {
        constants
    }
}

/// The shares of a batch of directed shares, without the recipients.
pub open spec fn stripped(batch: Seq<DirectedVShare>) -> Seq<VShareModel> {
    Seq::new(batch.len(), |i: int| batch[i]@.vshare)
}

/// The reconstructed values as shares at `index`.
pub open spec fn output_shares(index: nat, values: Seq<(nat, nat)>) -> Seq<VShareModel> {
    Seq::new(
        values.len(),
        |i: int| VShareModel { index, value: values[i].0, decommitment: values[i].1 },
    )
}

/// The outcome of an opening step with the reconstructed values as shares at `index`.
pub open spec fn directed_outcome(
    index: nat,
    outcome: Result<Option<Seq<(nat, nat)>>, OpenError>,
) -> Result<Option<Seq<VShareModel>>, OpenError> {
    match outcome {
        Ok(Some(values)) => Ok(Some(output_shares(index, values))),
        Ok(None) => Ok(None),
        Err(e) => Err(e),
    }
}

/// The models inside the outcome of a step.
pub open spec fn outcome_models(r: Result<Option<Vec<VShare>>, OpenError>) -> Result<
    Option<Seq<VShareModel>>,
    OpenError,
> {
    match r {
        Ok(Some(v)) => Ok(Some(vshare_models(v@))),
        Ok(None) => Ok(None),
        Err(e) => Err(e),
    }
}

/// The values of a sequence of coefficient shares.
pub open spec fn coefficient_values(coeffs: Seq<VShareModel>) -> Seq<nat> {
    Seq::new(coeffs.len(), |t: int| coeffs[t].value)
}

/// The value of the share that Horner's rule gives is the value at `x` of the
/// polynomial whose coefficients are the values of the coefficient shares.
pub proof fn lemma_horner_value(coeffs: Seq<VShareModel>, x: nat, from: int)
    requires
        0 <= from < coeffs.len(),
    ensures
        vshare_horner(coeffs, x, from).value % group_order() == poly_eval_from(
            coefficient_values(coeffs),
            x,
            from,
        ),
    decreases coeffs.len() - from,
{
    let m = group_order() as int;
    let values = coefficient_values(coeffs);
    lemma_order_bounds();
    if from + 1 >= coeffs.len() {
        assert(poly_eval_from(values, x, from + 1) == 0);
        assert(0 * x == 0) by (nonlinear_arith);
        lemma_small_mod(0, group_order());
    } else {
        lemma_horner_value(coeffs, x, from + 1);
        let h1 = vshare_horner(coeffs, x, from + 1).value as int;
        let e1 = poly_eval_from(values, x, from + 1) as int;
        let c = coeffs[from].value as int;
        let xi = x as int;
        lemma_poly_eval_bound(values, x, from + 1);
        lemma_small_mod(poly_eval_from(values, x, from + 1), group_order());
        lemma_congruent_product(h1, e1, xi, xi);
        lemma_congruent_sum((h1 * xi) % m, (e1 * xi) % m, c, c);
        lemma_mod_twice(h1 * xi, m);
        lemma_mod_twice(e1 * xi, m);
        lemma_mod_twice((h1 * xi) % m + c, m);
    }
}

/// The value of a directed share is the value at the recipient's index of the
/// polynomial whose coefficients are the values of the coefficient shares, times that
/// index for a sharing of zero.
pub proof fn lemma_directed_share_value(coeffs: Seq<VShareModel>, x: nat, zero: bool)
    requires
        coeffs.len() >= 1,
    ensures
        directed_share(coeffs, x, zero).vshare.value % group_order() == if zero {
            scalar_mul(poly_eval(coefficient_values(coeffs), x), x)
        } else {
            poly_eval(coefficient_values(coeffs), x)
        },
{
    let m = group_order() as int;
    lemma_order_bounds();
    lemma_horner_value(coeffs, x, 0);
    if zero {
        let h = vshare_horner(coeffs, x, 0).value as int;
        let e = poly_eval(coefficient_values(coeffs), x) as int;
        lemma_poly_eval_bound(coefficient_values(coeffs), x, 0);
        lemma_small_mod(poly_eval(coefficient_values(coeffs), x), group_order());
        lemma_congruent_product(h, e, x as int, x as int);
        lemma_mod_twice(h * x, m);
    }
}

/// The values at `y` of the polynomials `f`.
pub open spec fn values_at(f: Seq<Seq<nat>>, y: nat) -> Seq<nat> {
    Seq::new(f.len(), |t: int| poly_eval(f[t], y))
}

/// The polynomial with `k` coefficients that Horner's rule at `x` makes of the
/// polynomials `f[from..]` as coefficients.
pub open spec fn combined(f: Seq<Seq<nat>>, k: nat, x: nat, from: int) -> Seq<nat>
    decreases f.len() - from,
{
    if from >= f.len() || from < 0 {
        Seq::new(k, |t: int| 0nat)
    } else {
        plus_scaled(scaled_polynomial(combined(f, k, x, from + 1), x), f[from], 1)
    }
}

/// The combination of polynomials has `k` coefficients, and its value at `y` is what
/// Horner's rule at `x` makes of their values at `y`.
pub proof fn lemma_combined_eval(f: Seq<Seq<nat>>, k: nat, x: nat, y: nat, from: int)
    requires
        0 <= from <= f.len(),
        forall|t: int| 0 <= t < f.len() ==> (#[trigger] f[t]).len() <= k,
    ensures
        combined(f, k, x, from).len() == k,
        poly_eval(combined(f, k, x, from), y) == poly_eval_from(values_at(f, y), x, from),
    decreases f.len() - from,
{
    lemma_order_bounds();
    if from == f.len() {
        lemma_zero_polynomial_eval(k, y, 0);
    } else {
        let rest = combined(f, k, x, from + 1);
        lemma_combined_eval(f, k, x, y, from + 1);
        lemma_scaled_polynomial_eval(rest, x, y);
        lemma_plus_scaled_eval(scaled_polynomial(rest, x), f[from], 1, y);
        let v = poly_eval(f[from], y);
        lemma_poly_eval_bound(f[from], y, 0);
        assert(1 * v == v) by (nonlinear_arith);
        lemma_small_mod(v, group_order());
    }
}

/// What a recipient with index `x` opens from the directed shares of as many senders
/// as the coefficient sharings have coefficients: the value at `x` of the polynomial
/// whose coefficients are the secrets of the coefficient sharings, times `x` for a
/// sharing of zero. The sender with index `ys[p]` holds the values at `ys[p]` of the
/// polynomials `f` of the coefficient sharings; the differences of the senders'
/// indices are invertible.
pub proof fn lemma_resharing_opens_to_share(
    f: Seq<Seq<nat>>,
    x: nat,
    ys: Seq<nat>,
    vs: Seq<nat>,
    zero: bool,
)
    requires
        ys.len() >= 1,
        vs.len() == ys.len(),
        forall|t: int| 0 <= t < f.len() ==> (#[trigger] f[t]).len() <= ys.len(),
        invertible_differences(ys),
        forall|p: int|
            0 <= p < ys.len() ==> #[trigger] vs[p] % group_order() == if zero {
                scalar_mul(poly_eval(values_at(f, ys[p]), x), x)
            } else {
                poly_eval(values_at(f, ys[p]), x)
            },
    ensures
        interpolate_at_zero(ys, vs) == if zero {
            scalar_mul(poly_eval(values_at(f, 0), x), x)
        } else {
            poly_eval(values_at(f, 0), x)
        },
{
    let k = ys.len();
    let w = combined(f, k, x, 0);
    lemma_order_bounds();
    lemma_combined_eval(f, k, x, 0, 0);
    if zero {
        let sw = scaled_polynomial(w, x);
        lemma_scaled_polynomial_eval(w, x, 0);
        assert forall|p: int| 0 <= p < ys.len() implies #[trigger] vs[p] % group_order()
            == poly_eval(sw, ys[p]) by {
            lemma_combined_eval(f, k, x, ys[p], 0);
            lemma_scaled_polynomial_eval(w, x, ys[p]);
        }
        lemma_interpolation_recovers_constant_term(ys, vs, sw);
        crate::sss::lemma_eval_at_zero(sw, 0);
    } else {
        assert forall|p: int| 0 <= p < ys.len() implies #[trigger] vs[p] % group_order()
            == poly_eval(w, ys[p]) by {
            lemma_combined_eval(f, k, x, ys[p], 0);
        }
        lemma_interpolation_recovers_constant_term(ys, vs, w);
        crate::sss::lemma_eval_at_zero(w, 0);
    }
}

/// Shares of a sharing of zero, each the value at its index of a polynomial `g` times
/// that index, interpolate at zero to zero: given one share more than `g` has
/// coefficients, at indices with invertible differences.
pub proof fn lemma_zero_shares_interpolate_to_zero(xs: Seq<nat>, vs: Seq<nat>, g: Seq<nat>)
    requires
        xs.len() == vs.len(),
        xs.len() == g.len() + 1,
        invertible_differences(xs),
        forall|i: int|
            0 <= i < xs.len() ==> #[trigger] vs[i] % group_order() == scalar_mul(
                poly_eval(g, xs[i]),
                xs[i],
            ),
    ensures
        interpolate_at_zero(xs, vs) == 0,
{
    let m = group_order() as int;
    let z = times_linear(g, 0);
    lemma_order_bounds();
    lemma_small_mod(0, group_order());
    assert forall|i: int| 0 <= i < xs.len() implies #[trigger] vs[i] % group_order()
        == poly_eval(z, xs[i]) by {
        let x = xs[i] as int;
        let e = poly_eval(g, xs[i]) as int;
        lemma_times_linear_eval(g, 0, xs[i]);
        lemma_scalar_sub_is_difference(xs[i], 0);
        lemma_mod_twice(x, m);
        lemma_congruent_product(e, e, x, crate::scalar::scalar_sub(xs[i], 0) as int);
    }
    lemma_interpolation_recovers_constant_term(xs, vs, z);
    assert(z[0] == crate::scalar::scalar_sub(0, scalar_mul(0, crate::sss::coefficient_at(g, 0))));
    assert(0 * crate::sss::coefficient_at(g, 0) == 0) by (nonlinear_arith);
    lemma_scalar_sub_is_difference(0, 0);
}

fn poly_eval_vshares(vshares: &[VShare], index: &Scalar) -> (r: VShare)
    requires
        vshares.len() > 0,
    ensures
        r@ == vshare_horner(vshare_models(vshares@), index@, 0),
{
    let mut i: usize = vshares.len() - 1;
    let mut eval_vshare = vshares[i];
    while i > 0
        invariant
            i < vshares.len(),
            eval_vshare@ == vshare_horner(vshare_models(vshares@), index@, i as int),
        decreases i,
    {
        i -= 1;
        eval_vshare.scale_assign_mut(index);
        eval_vshare.add_assign_mut(&vshares[i]);
    }
    eval_vshare
}

fn shares_of_shares(coeff_shares: &[VShare], indices: &[Scalar], zero: bool) -> (r: Vec<
    DirectedVShare,
>)
    requires
        coeff_shares.len() > 0,
    ensures
        r.len() == indices.len(),
        forall|i: int|
            0 <= i < r.len() ==> (#[trigger] r@[i])@ == directed_share(
                vshare_models(coeff_shares@),
                indices@[i]@,
                zero,
            ),
{
    let n = indices.len();
    let mut shares_of_shares: Vec<DirectedVShare> = Vec::with_capacity(n);
    let mut i: usize = 0;
    while i < n
        invariant
            i <= n,
            n == indices.len(),
            coeff_shares.len() > 0,
            shares_of_shares.len() == i,
            forall|j: int|
                0 <= j < i ==> (#[trigger] shares_of_shares@[j])@ == directed_share(
                    vshare_models(coeff_shares@),
                    indices@[j]@,
                    zero,
                ),
        decreases n - i,
    {
        let mut vshare = poly_eval_vshares(coeff_shares, &indices[i]);
        if zero {
            vshare.scale_assign_mut(&indices[i]);
        }
        shares_of_shares.push(DirectedVShare { vshare, to: indices[i] });
        i += 1;
    }
    shares_of_shares
}

fn shares_of_shares_rng(coeff_shares: &[VShare], indices: &[Scalar]) -> (r: Vec<DirectedVShare>)
    requires
        coeff_shares.len() > 0,
    ensures
        r.len() == indices.len(),
        forall|i: int|
            0 <= i < r.len() ==> (#[trigger] r@[i])@ == directed_share(
                vshare_models(coeff_shares@),
                indices@[i]@,
                false,
            ),
{
    shares_of_shares(coeff_shares, indices, false)
}

fn shares_of_shares_rzg(coeff_shares: &[VShare], indices: &[Scalar]) -> (r: Vec<DirectedVShare>)
    requires
        coeff_shares.len() > 0,
    ensures
        r.len() == indices.len(),
        forall|i: int|
            0 <= i < r.len() ==> (#[trigger] r@[i])@ == directed_share(
                vshare_models(coeff_shares@),
                indices@[i]@,
                true,
            ),
{
    shares_of_shares(coeff_shares, indices, true)
}

/// Whether `messages` holds, for every recipient and every slot, the share that the
/// coefficient shares of that slot give for that recipient.
pub open spec fn is_initial_messages(
    messages: Seq<Vec<DirectedVShare>>,
    coeff_shares_batch: Seq<Vec<VShare>>,
    indices: Seq<Scalar>,
    zero: bool,
) -> bool {
    &&& messages.len() == indices.len()
    &&& forall|i: int|
        0 <= i < messages.len() ==> (#[trigger] messages[i]).len() == coeff_shares_batch.len()
    &&& forall|i: int, s: int|
        0 <= i < messages.len() && 0 <= s < coeff_shares_batch.len() ==> (
        #[trigger] messages[i]@[s])@ == directed_share(
            vshare_models(coeff_shares_batch[s]@),
            indices[i]@,
            zero,
        )
}

fn initial_messages_batch(coeff_shares_batch: &[Vec<VShare>], indices: &[Scalar], zero: bool) -> (r:
    Vec<Vec<DirectedVShare>>)
    requires
        forall|s: int| 0 <= s < coeff_shares_batch.len() ==> (#[trigger] coeff_shares_batch@[s]).len() > 0,
    ensures
        is_initial_messages(r@, coeff_shares_batch@, indices@, zero),
{
    let n = indices.len();
    let b = coeff_shares_batch.len();
    let mut directed: Vec<Vec<DirectedVShare>> = Vec::with_capacity(n);
    let mut p: usize = 0;
    while p < n
        invariant
            p <= n,
            directed.len() == p,
            forall|i: int| 0 <= i < p ==> (#[trigger] directed@[i]).len() == 0,
        decreases n - p,
    {
        directed.push(Vec::with_capacity(b));
        p += 1;
    }
    let mut s: usize = 0;
    while s < b
        invariant
            s <= b,
            b == coeff_shares_batch.len(),
            n == indices.len(),
            directed.len() == n,
            forall|t: int| 0 <= t < b ==> (#[trigger] coeff_shares_batch@[t]).len() > 0,
            forall|i: int| 0 <= i < n ==> (#[trigger] directed@[i]).len() == s,
            forall|i: int, t: int|
                0 <= i < n && 0 <= t < s ==> (#[trigger] directed@[i]@[t])@ == directed_share(
                    vshare_models(coeff_shares_batch@[t]@),
                    indices@[i]@,
                    zero,
                ),
        decreases b - s,
    {
        let messages = if zero {
            shares_of_shares_rzg(coeff_shares_batch[s].as_slice(), indices)
        } else {
            shares_of_shares_rng(coeff_shares_batch[s].as_slice(), indices)
        };
        let mut i: usize = 0;
        while i < n
            invariant
                i <= n,
                s < b,
                b == coeff_shares_batch.len(),
                n == indices.len(),
                directed.len() == n,
                messages.len() == n,
                forall|j: int|
                    0 <= j < n ==> (#[trigger] messages@[j])@ == directed_share(
                        vshare_models(coeff_shares_batch@[s as int]@),
                        indices@[j]@,
                        zero,
                    ),
                forall|j: int|
                    0 <= j < n ==> (#[trigger] directed@[j]).len() == if j < i {
                        s + 1
                    } else {
                        s as int
                    },
                forall|j: int, t: int|
                    0 <= j < n && 0 <= t < directed@[j].len() ==> (
                    #[trigger] directed@[j]@[t])@ == directed_share(
                        vshare_models(coeff_shares_batch@[t]@),
                        indices@[j]@,
                        zero,
                    ),
            decreases n - i,
        {
            directed[i].push(messages[i]);
            i += 1;
        }
        s += 1;
    }
    directed
}

/// The messages of a dealer in the generation of random sharings: for every recipient,
/// one directed share for each slot of the batch.
pub fn initial_messages_batch_rng(coeff_shares_batch: &[Vec<VShare>], indices: &[Scalar]) -> (r:
    Vec<Vec<DirectedVShare>>)
    requires
        forall|s: int| 0 <= s < coeff_shares_batch.len() ==> (#[trigger] coeff_shares_batch@[s]).len() > 0,
    ensures
        is_initial_messages(r@, coeff_shares_batch@, indices@, false),
{
    initial_messages_batch(coeff_shares_batch, indices, false)
}

/// The messages of a dealer in the generation of random sharings of zero: as for random
/// sharings, with every share multiplied by the recipient's index.
pub fn initial_messages_batch_rzg(coeff_shares_batch: &[Vec<VShare>], indices: &[Scalar]) -> (r:
    Vec<Vec<DirectedVShare>>)
    requires
        forall|s: int| 0 <= s < coeff_shares_batch.len() ==> (#[trigger] coeff_shares_batch@[s]).len() > 0,
    ensures
        is_initial_messages(r@, coeff_shares_batch@, indices@, true),
{
    initial_messages_batch(coeff_shares_batch, indices, true)
}

fn commitment_for_own_share(commitments: &[SharingCommitment], index: &Scalar, zero: bool) -> (r:
    SharingCommitment)
    requires
        commitments.len() > 0,
    ensures
        r@ == own_commitment(commitment_views(commitments@), index@, zero),
{
    let mut i: usize = commitments.len() - 1;
    let mut eval_commitment = commitments[i].clone();
    while i > 0
        invariant
            i < commitments.len(),
            eval_commitment@ == commitment_horner(
                commitment_views(commitments@),
                index@,
                i as int,
            ),
        decreases i,
    {
        i -= 1;
        eval_commitment.scale_assign_mut(index);
        eval_commitment.add_assign_mut(&commitments[i]);
    }
    if zero {
        eval_commitment.scale_assign_mut(index);
    }
    eval_commitment
}

fn commitment_for_own_share_rng(commitments: &[SharingCommitment], index: &Scalar) -> (r:
    SharingCommitment)
    requires
        commitments.len() > 0,
    ensures
        r@ == own_commitment(commitment_views(commitments@), index@, false),
{
    commitment_for_own_share(commitments, index, false)
}

fn commitment_for_own_share_rzg(commitments: &[SharingCommitment], index: &Scalar) -> (r:
    SharingCommitment)
    requires
        commitments.len() > 0,
    ensures
        r@ == own_commitment(commitment_views(commitments@), index@, true),
{
    commitment_for_own_share(commitments, index, true)
}

fn own_commitment_batch(
    coeff_commitments_batch: &[Vec<SharingCommitment>],
    own_index: &Scalar,
    zero: bool,
) -> (r: Vec<SharingCommitment>)
    requires
        forall|s: int|
            0 <= s < coeff_commitments_batch.len() ==> (
            #[trigger] coeff_commitments_batch@[s]).len() > 0,
    ensures
        r.len() == coeff_commitments_batch.len(),
        forall|s: int|
            0 <= s < r.len() ==> (#[trigger] r@[s])@ == own_commitment(
                commitment_views(coeff_commitments_batch@[s]@),
                own_index@,
                zero,
            ),
{
    let b = coeff_commitments_batch.len();
    let mut own_commitment_batch: Vec<SharingCommitment> = Vec::with_capacity(b);
    let mut s: usize = 0;
    while s < b
        invariant
            s <= b,
            b == coeff_commitments_batch.len(),
            own_commitment_batch.len() == s,
            forall|t: int|
                0 <= t < b ==> (#[trigger] coeff_commitments_batch@[t]).len() > 0,
            forall|t: int|
                0 <= t < s ==> (#[trigger] own_commitment_batch@[t])@ == own_commitment(
                    commitment_views(coeff_commitments_batch@[t]@),
                    own_index@,
                    zero,
                ),
        decreases b - s,
    {
        let commitment = if zero {
            commitment_for_own_share_rzg(coeff_commitments_batch[s].as_slice(), own_index)
        } else {
            commitment_for_own_share_rng(coeff_commitments_batch[s].as_slice(), own_index)
        };
        own_commitment_batch.push(commitment);
        s += 1;
    }
    own_commitment_batch
}

/// For each slot, the commitment against which the party with index `own_index` checks
/// the shares sent to it in the generation of random sharings.
pub fn own_commitment_batch_rng(
    coeff_commitments_batch: &[Vec<SharingCommitment>],
    own_index: &Scalar,
) -> (r: Vec<SharingCommitment>)
    requires
        forall|s: int|
            0 <= s < coeff_commitments_batch.len() ==> (
            #[trigger] coeff_commitments_batch@[s]).len() > 0,
    ensures
        r.len() == coeff_commitments_batch.len(),
        forall|s: int|
            0 <= s < r.len() ==> (#[trigger] r@[s])@ == own_commitment(
                commitment_views(coeff_commitments_batch@[s]@),
                own_index@,
                false,
            ),
{
    own_commitment_batch(coeff_commitments_batch, own_index, false)
}

/// For each slot, the commitment against which the party with index `own_index` checks
/// the shares sent to it in the generation of random sharings of zero.
pub fn own_commitment_batch_rzg(
    coeff_commitments_batch: &[Vec<SharingCommitment>],
    own_index: &Scalar,
) -> (r: Vec<SharingCommitment>)
    requires
        forall|s: int|
            0 <= s < coeff_commitments_batch.len() ==> (
            #[trigger] coeff_commitments_batch@[s]).len() > 0,
    ensures
        r.len() == coeff_commitments_batch.len(),
        forall|s: int|
            0 <= s < r.len() ==> (#[trigger] r@[s])@ == own_commitment(
                commitment_views(coeff_commitments_batch@[s]@),
                own_index@,
                true,
            ),
{
    own_commitment_batch(coeff_commitments_batch, own_index, true)
}

/// Whether every commitment vector of a slot has an entry.
pub open spec fn all_nonempty(coeff_commitments: Seq<SharingCommitment>) -> bool {
    forall|i: int| 0 <= i < coeff_commitments.len() ==> (#[trigger] coeff_commitments[i])@.len() > 0
}

fn output_commitment_rng(coeff_commitments: &[SharingCommitment]) -> (r: SharingCommitment)
    requires
        all_nonempty(coeff_commitments@),
    ensures
        r@ == output_commitment(commitment_views(coeff_commitments@), false),
{
    let k = coeff_commitments.len();
    let mut output = SharingCommitment::with_capacity(k);
    let mut i: usize = 0;
    while i < k
        invariant
            i <= k,
            k == coeff_commitments.len(),
            all_nonempty(coeff_commitments@),
            output@ == Seq::new(i as nat, |j: int| coeff_commitments@[j]@[0]),
        decreases k - i,
    {
        output.push(coeff_commitments[i].get(0));
        assert(output@ =~= Seq::new((i + 1) as nat, |j: int| coeff_commitments@[j]@[0]));
        i += 1;
    }
    assert(output@ =~= output_commitment(commitment_views(coeff_commitments@), false));
    output
}

fn output_commitment_rzg(coeff_commitments: &[SharingCommitment]) -> (r: SharingCommitment)
    requires
        all_nonempty(coeff_commitments@),
        coeff_commitments.len() < usize::MAX,
    ensures
        r@ == output_commitment(commitment_views(coeff_commitments@), true),
{
    let k = coeff_commitments.len() + 1;
    let mut output = SharingCommitment::with_capacity(k);
    output.push(Gej::infinity());
    let mut i: usize = 0;
    while i < coeff_commitments.len()
        invariant
            i <= coeff_commitments.len(),
            all_nonempty(coeff_commitments@),
            output@ == seq![infinity_bytes()] + Seq::new(
                i as nat,
                |j: int| coeff_commitments@[j]@[0],
            ),
        decreases coeff_commitments.len() - i,
    {
        output.push(coeff_commitments[i].get(0));
        assert(output@ =~= seq![infinity_bytes()] + Seq::new(
            (i + 1) as nat,
            |j: int| coeff_commitments@[j]@[0],
        ));
        i += 1;
    }
    assert(output@ =~= output_commitment(commitment_views(coeff_commitments@), true));
    output
}

/// For each slot, the commitment of the output sharing of the generation of random
/// sharings.
pub fn output_commitment_batch_rng(coeff_commitments_batch: &[Vec<SharingCommitment>]) -> (r: Vec<
    SharingCommitment,
>)
    requires
        forall|s: int|
            0 <= s < coeff_commitments_batch.len() ==> all_nonempty(
                (#[trigger] coeff_commitments_batch@[s])@,
            ),
    ensures
        r.len() == coeff_commitments_batch.len(),
        forall|s: int|
            0 <= s < r.len() ==> (#[trigger] r@[s])@ == output_commitment(
                commitment_views(coeff_commitments_batch@[s]@),
                false,
            ),
{
    let b = coeff_commitments_batch.len();
    let mut output_commitment_batch: Vec<SharingCommitment> = Vec::with_capacity(b);
    let mut s: usize = 0;
    while s < b
        invariant
            s <= b,
            b == coeff_commitments_batch.len(),
            output_commitment_batch.len() == s,
            forall|t: int|
                0 <= t < b ==> all_nonempty((#[trigger] coeff_commitments_batch@[t])@),
            forall|t: int|
                0 <= t < s ==> (#[trigger] output_commitment_batch@[t])@ == output_commitment(
                    commitment_views(coeff_commitments_batch@[t]@),
                    false,
                ),
        decreases b - s,
    {
        output_commitment_batch.push(output_commitment_rng(coeff_commitments_batch[s].as_slice()));
        s += 1;
    }
    output_commitment_batch
}

/// For each slot, the commitment of the output sharing of the generation of random
/// sharings of zero: one entry longer, with the identity as its constant term.
pub fn output_commitment_batch_rzg(coeff_commitments_batch: &[Vec<SharingCommitment>]) -> (r: Vec<
    SharingCommitment,
>)
    requires
        forall|s: int|
            0 <= s < coeff_commitments_batch.len() ==> all_nonempty(
                (#[trigger] coeff_commitments_batch@[s])@,
            ) && coeff_commitments_batch@[s].len() < usize::MAX,
    ensures
        r.len() == coeff_commitments_batch.len(),
        forall|s: int|
            0 <= s < r.len() ==> (#[trigger] r@[s])@ == output_commitment(
                commitment_views(coeff_commitments_batch@[s]@),
                true,
            ),
{
    let b = coeff_commitments_batch.len();
    let mut output_commitment_batch: Vec<SharingCommitment> = Vec::with_capacity(b);
    let mut s: usize = 0;
    while s < b
        invariant
            s <= b,
            b == coeff_commitments_batch.len(),
            output_commitment_batch.len() == s,
            forall|t: int|
                0 <= t < b ==> all_nonempty((#[trigger] coeff_commitments_batch@[t])@)
                    && coeff_commitments_batch@[t].len() < usize::MAX,
            forall|t: int|
                0 <= t < s ==> (#[trigger] output_commitment_batch@[t])@ == output_commitment(
                    commitment_views(coeff_commitments_batch@[t]@),
                    true,
                ),
        decreases b - s,
    {
        output_commitment_batch.push(output_commitment_rzg(coeff_commitments_batch[s].as_slice()));
        s += 1;
    }
    output_commitment_batch
}

/// Handles the batch of directed shares of one sender: opens them as the opening
/// protocol does, without the recipients, and returns the reconstructed values as this
/// party's shares of the output sharings.
pub fn handle_directed_vshare_batch(
    state: &mut State,
    inst_params: &InstanceParams,
    params: &Parameters,
    directed_vshare_batch: Vec<DirectedVShare>,
) -> (r: Result<Option<Vec<VShare>>, OpenError>)
    requires
        old(state).wf(),
        old(state)@.len() == inst_params.batch_size(),
        inst_params.batch_size() > 0,
    ensures
        final(state).wf(),
        final(state)@.len() == old(state)@.len(),
        outcome_models(r) == directed_outcome(
            params.index@,
            step_outcome(
                old(state)@,
                inst_params@,
                scalar_values(params.indices@),
                params.h@,
                stripped(directed_vshare_batch@),
            ),
        ),
        final(state)@ == step_state(
            old(state)@,
            inst_params@,
            scalar_values(params.indices@),
            params.h@,
            stripped(directed_vshare_batch@),
        ),
        r is Err ==> final(state)@ == old(state)@,
{
    let mut vshare_batch: Vec<VShare> = Vec::with_capacity(directed_vshare_batch.len());
    let mut i: usize = 0;
    while i < directed_vshare_batch.len()
        invariant
            i <= directed_vshare_batch.len(),
            vshare_batch.len() == i,
            forall|j: int| 0 <= j < i ==> vshare_batch@[j] == directed_vshare_batch@[j].vshare,
        decreases directed_vshare_batch.len() - i,
    {
        vshare_batch.push(directed_vshare_batch[i].vshare);
        i += 1;
    }
    assert(vshare_models(vshare_batch@) =~= stripped(directed_vshare_batch@));
    match state.handle_vshare_batch(inst_params, params, vshare_batch) {
        Err(e) => Err(e),
        Ok(None) => Ok(None),
        Ok(Some(values)) => {
            let mut output_vshares: Vec<VShare> = Vec::with_capacity(values.len());
            let mut j: usize = 0;
            while j < values.len()
                invariant
                    j <= values.len(),
                    output_vshares.len() == j,
                    forall|l: int|
                        0 <= l < j ==> (#[trigger] output_vshares@[l])@ == (VShareModel {
                            index: params.index@,
                            value: values@[l].0@,
                            decommitment: values@[l].1@,
                        }),
                decreases values.len() - j,
            {
                output_vshares.push(
                    VShare {
                        share: Share { index: params.index, value: values[j].0 },
                        decommitment: values[j].1,
                    },
                );
                j += 1;
            }
            assert(vshare_models(output_vshares@) =~= output_shares(
                params.index@,
                crate::open::pair_values(values@),
            ));
            Ok(Some(output_vshares))
        },
    }
}

} // verus!
