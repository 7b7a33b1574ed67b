//! Reed–Solomon decoding over the scalar field.
//!
//! Given `n` points of which at most `(n − k) / 2` are wrong, the decoder finds the
//! polynomial with `k` coefficients through the others. It tries the polynomial through
//! `k` points that the caller expects to be right, then solves the key equation of
//! Berlekamp and Welch by elimination, and hands out a polynomial only after it has
//! counted that enough points lie on it.

use vstd::prelude::*;
use vstd::arithmetic::div_mod::{lemma_mod_twice, lemma_small_mod};
use crate::scalar::{
    group_order, lemma_congruent_sum, lemma_order_bounds, lemma_scalar_sub_is_difference,
    scalar_mul, scalar_sub, Scalar,
};
use crate::sss::{
    difference, interpolant, interpolate_polynomial, invertible_differences, is_unit,
    lemma_difference_eval, lemma_poly_eval_bound, lemma_vanishing_polynomial, poly_eval,
    poly_eval_scalars, scalar_values, share_values, zeros, Share,
};

verus! {

/// The number of wrong points that decoding with `n` points and `k` coefficients
/// tolerates.
pub open spec fn error_bound(n: nat, k: nat) -> nat {
    ((n - k) / 2) as nat
}

/// The number of the first `n` points `(xs[i], ys[i])` that lie on the polynomial.
pub open spec fn agreements(poly: Seq<nat>, xs: Seq<nat>, ys: Seq<nat>, n: nat) -> nat
    decreases n,
{
    if n == 0 {
        0
    } else {
        agreements(poly, xs, ys, (n - 1) as nat) + if poly_eval(poly, xs[n - 1]) == ys[n - 1] {
            1nat
        } else {
            0nat
        }
    }
}

/// Whether `poly` has `k` coefficients and all points but at most the tolerated number
/// lie on it.
pub open spec fn is_decoding(poly: Seq<nat>, xs: Seq<nat>, ys: Seq<nat>, k: nat) -> bool {
    &&& poly.len() == k
    &&& 1 <= k <= xs.len()
    &&& xs.len() == ys.len()
    &&& agreements(poly, xs, ys, xs.len()) + error_bound(xs.len(), k) >= xs.len()
}

/// The polynomial through the first `k` points: the code word's own polynomial where
/// those points are right.
pub open spec fn first_interpolant(xs: Seq<nat>, ys: Seq<nat>, k: nat) -> Seq<nat> {
    interpolant(xs.take(k as int), ys.take(k as int))
}

/// The positions among the first `n` at which the points lie on both polynomials, in
/// order.
pub open spec fn common_positions(
    p: Seq<nat>,
    q: Seq<nat>,
    xs: Seq<nat>,
    ys: Seq<nat>,
    n: nat,
) -> Seq<int>
    decreases n,
{
    if n == 0 {
        Seq::empty()
    } else {
        let rest = common_positions(p, q, xs, ys, (n - 1) as nat);
        if poly_eval(p, xs[n - 1]) == ys[n - 1] && poly_eval(q, xs[n - 1]) == ys[n - 1] {
            rest.push(n - 1)
        } else {
            rest
        }
    }
}

/// The common positions of two polynomials lie below `n`, in increasing order; the
/// points there lie on both; and there are at least as many as the two polynomials
/// have points on them beyond `n` together.
pub proof fn lemma_common_positions(p: Seq<nat>, q: Seq<nat>, xs: Seq<nat>, ys: Seq<nat>, n: nat)
    ensures
        agreements(p, xs, ys, n) + agreements(q, xs, ys, n) <= n + common_positions(
            p,
            q,
            xs,
            ys,
            n,
        ).len(),
        forall|t: int|
            0 <= t < common_positions(p, q, xs, ys, n).len() ==> {
                let i = #[trigger] common_positions(p, q, xs, ys, n)[t];
                0 <= i < n && poly_eval(p, xs[i]) == ys[i] && poly_eval(q, xs[i]) == ys[i]
            },
        forall|s: int, t: int|
            0 <= s < t < common_positions(p, q, xs, ys, n).len() ==> common_positions(
                p,
                q,
                xs,
                ys,
                n,
            )[s] < common_positions(p, q, xs, ys, n)[t],
    decreases n,
{
    if n > 0 {
        lemma_common_positions(p, q, xs, ys, (n - 1) as nat);
    }
}

/// Two polynomials that decode the same points have congruent coefficients, wherever
/// the differences of the indices are invertible: what is decoded is determined.
pub proof fn lemma_decoding_is_unique(
    p: Seq<nat>,
    q: Seq<nat>,
    xs: Seq<nat>,
    ys: Seq<nat>,
    k: nat,
)
    requires
        is_decoding(p, xs, ys, k),
        is_decoding(q, xs, ys, k),
        invertible_differences(xs),
    ensures
        forall|t: int| 0 <= t < k ==> (#[trigger] p[t]) % group_order() == q[t] % group_order(),
{
    let m = group_order() as int;
    let n = xs.len();
    lemma_order_bounds();
    lemma_small_mod(0, group_order());
    lemma_common_positions(p, q, xs, ys, n);
    let common = common_positions(p, q, xs, ys, n);
    assert(common.len() >= k);
    let places = common.take(k as int);
    let nodes = picked(xs, places);
    let d = difference(p, q);
    assert forall|t: int| 0 <= t < nodes.len() implies poly_eval(d, #[trigger] nodes[t])
        == 0 by {
        let i = places[t];
        assert(i == common[t]);
        lemma_difference_eval(p, q, xs[i], 0);
    }
    assert forall|s: int, t: int|
        0 <= s < nodes.len() && 0 <= t < nodes.len() && s != t implies is_unit(
        #[trigger] scalar_sub(nodes[s], nodes[t]),
    ) by {
        assert(places[s] == common[s] && places[t] == common[t]);
        if s < t {
            assert(common[s] < common[t]);
        } else {
            assert(common[t] < common[s]);
        }
        assert(is_unit(scalar_sub(xs[places[s]], xs[places[t]])));
    }
    lemma_vanishing_polynomial(d, nodes);
    assert forall|t: int| 0 <= t < k implies (#[trigger] p[t]) % group_order() == q[t]
        % group_order() by {
        assert(d[t] % group_order() == 0);
        lemma_scalar_sub_is_difference(p[t], q[t]);
        lemma_mod_twice(p[t] - q[t], m);
        lemma_congruent_sum(p[t] - q[t], 0, q[t] as int, q[t] as int);
    }
}

/// The entries of `s` at the given positions.
pub open spec fn picked(s: Seq<nat>, positions: Seq<int>) -> Seq<nat> {
    Seq::new(positions.len(), |i: int| s[positions[i]])
}

/// Whether `positions` names `k` places among `n`.
pub open spec fn is_hint(positions: Seq<int>, n: nat, k: nat) -> bool {
    positions.len() == k && forall|i: int| 0 <= i < k ==> 0 <= #[trigger] positions[i] < n
}

/// The positions that a vector of places stands for.
pub open spec fn positions_of(hint: Seq<usize>) -> Seq<int> {
    Seq::new(hint.len(), |i: int| hint[i] as int)
}

/// The polynomial through the points at the given positions.
pub open spec fn hinted_interpolant(xs: Seq<nat>, ys: Seq<nat>, positions: Seq<int>) -> Seq<nat> {
    interpolant(picked(xs, positions), picked(ys, positions))
}

/// The indices at which the points of a code word are taken.
pub struct Precompute {
    indices: Vec<Scalar>,
}

impl View for Precompute {
    type V = Seq<nat>;

    closed spec fn view(&self) -> Seq<nat> {
        scalar_values(self.indices@)
    }
}

impl Precompute {
    /// The decoding context for points at the given indices.
    pub fn new(indices: &[Scalar]) -> (r: Precompute)
        ensures
            r@ == scalar_values(indices@),
    {
        let mut copy: Vec<Scalar> = Vec::with_capacity(indices.len());
        let mut i: usize = 0;
        while i < indices.len()
            invariant
                i <= indices.len(),
                copy.len() == i,
                forall|j: int| 0 <= j < i ==> copy@[j] == indices@[j],
            decreases indices.len() - i,
        {
            copy.push(indices[i]);
            i += 1;
        }
        assert(scalar_values(copy@) =~= scalar_values(indices@));
        Precompute { indices: copy }
    }

    /// The number of indices.
    pub fn len(&self) -> (r: usize)
        ensures
            r == self@.len(),
    {
        self.indices.len()
    }
}

/// Counts the points `(xs[i], ys[i])` that lie on the polynomial.
pub fn count_agreements(poly: &[Scalar], xs: &[Scalar], ys: &[Scalar]) -> (r: usize)
    requires
        xs.len() == ys.len(),
    ensures
        r == agreements(
            scalar_values(poly@),
            scalar_values(xs@),
            scalar_values(ys@),
            xs.len() as nat,
        ),
        r <= xs.len(),
{
    let mut count: usize = 0;
    let mut i: usize = 0;
    while i < xs.len()
        invariant
            i <= xs.len(),
            xs.len() == ys.len(),
            count <= i,
            count == agreements(
                scalar_values(poly@),
                scalar_values(xs@),
                scalar_values(ys@),
                i as nat,
            ),
        decreases xs.len() - i,
    {
        if poly_eval_scalars(poly, &xs[i]).eq(&ys[i]) {
            count += 1;
        }
        i += 1;
    }
    count
}

/// The row with every entry multiplied by `factor`.
fn row_scaled(row: &Vec<Scalar>, factor: &Scalar) -> (r: Vec<Scalar>)
    ensures
        r.len() == row.len(),
        forall|i: int| 0 <= i < r.len() ==> (#[trigger] r@[i])@ == scalar_mul(row@[i]@, factor@),
{
    let mut out: Vec<Scalar> = Vec::with_capacity(row.len());
    let mut i: usize = 0;
    while i < row.len()
        invariant
            i <= row.len(),
            out.len() == i,
            forall|j: int| 0 <= j < i ==> (#[trigger] out@[j])@ == scalar_mul(row@[j]@, factor@),
        decreases row.len() - i,
    {
        out.push(row[i].mul(factor));
        i += 1;
    }
    out
}

/// The row `target` less `factor` times the row `source`.
fn row_reduced(target: &Vec<Scalar>, source: &Vec<Scalar>, factor: &Scalar) -> (r: Vec<Scalar>)
    requires
        target.len() == source.len(),
    ensures
        r.len() == target.len(),
        forall|i: int|
            0 <= i < r.len() ==> (#[trigger] r@[i])@ == scalar_sub(
                target@[i]@,
                scalar_mul(factor@, source@[i]@),
            ),
{
    let mut out: Vec<Scalar> = Vec::with_capacity(target.len());
    let mut i: usize = 0;
    while i < target.len()
        invariant
            i <= target.len(),
            target.len() == source.len(),
            out.len() == i,
            forall|j: int|
                0 <= j < i ==> (#[trigger] out@[j])@ == scalar_sub(
                    target@[j]@,
                    scalar_mul(factor@, source@[j]@),
                ),
        decreases target.len() - i,
    {
        out.push(target[i].sub(&factor.mul(&source[i])));
        i += 1;
    }
    out
}

/// Whether every row of a matrix has `width` entries.
pub open spec fn has_width(a: Seq<Vec<Scalar>>, width: nat) -> bool {
    forall|r: int| 0 <= r < a.len() ==> (#[trigger] a[r]).len() == width
}

/// The row of the key equation for the point `(x, y)`: the powers of `x` up to
/// `quotient_len`, then the powers of `x` up to `locator_len` times `−y`, then the
/// right-hand side `y · x^locator_len`. Only the length of the row is stated: what is
/// made of the rows is a candidate that the decoder checks.
fn key_equation_row(x: &Scalar, y: &Scalar, quotient_len: usize, locator_len: usize) -> (r: Vec<
    Scalar,
>)
    requires
        quotient_len + locator_len < usize::MAX,
    ensures
        r.len() == quotient_len + locator_len + 1,
{
    let mut row: Vec<Scalar> = Vec::with_capacity(quotient_len + locator_len + 1);
    let mut power = Scalar::one();
    let mut j: usize = 0;
    while j < quotient_len
        invariant
            j <= quotient_len,
            row.len() == j,
        decreases quotient_len - j,
    {
        row.push(power);
        power = power.mul(x);
        j += 1;
    }
    let negated = y.negate();
    power = Scalar::one();
    j = 0;
    while j < locator_len
        invariant
            j <= locator_len,
            row.len() == quotient_len + j,
        decreases locator_len - j,
    {
        row.push(negated.mul(&power));
        power = power.mul(x);
        j += 1;
    }
    row.push(y.mul(&power));
    row
}

/// The first row from `0` on that is not yet used and has a nonzero entry in column
/// `col`, or the number of rows if there is none.
fn find_pivot(a: &Vec<Vec<Scalar>>, used: &Vec<bool>, col: usize) -> (r: usize)
    requires
        used.len() == a.len(),
        forall|i: int| 0 <= i < a.len() ==> col < (#[trigger] a@[i]).len(),
    ensures
        r <= a.len(),
        r < a.len() ==> !used@[r as int] && a@[r as int]@[col as int]@ != 0,
        forall|i: int| 0 <= i < r ==> used@[i] || (#[trigger] a@[i])@[col as int]@ == 0,
{
    let mut r: usize = 0;
    while r < a.len()
        invariant
            r <= a.len(),
            used.len() == a.len(),
            forall|i: int| 0 <= i < a.len() ==> col < (#[trigger] a@[i]).len(),
            forall|i: int| 0 <= i < r ==> used@[i] || (#[trigger] a@[i])@[col as int]@ == 0,
        decreases a.len() - r,
    {
        if !used[r] && !a[r][col].is_zero() {
            return r;
        }
        r += 1;
    }
    r
}

/// Brings the augmented matrix `a`, with `m` unknowns, into reduced form by elimination
/// and reads off a solution in which every unknown without a pivot is zero. Only the
/// length of the solution is stated: it is a candidate that the decoder checks.
fn solve(a: Vec<Vec<Scalar>>, m: usize) -> (u: Vec<Scalar>)
    requires
        m < usize::MAX,
        has_width(a@, (m + 1) as nat),
    ensures
        u.len() == m,
{
    let n = a.len();
    let mut a = a;
    let mut used: Vec<bool> = Vec::with_capacity(n);
    let mut i: usize = 0;
    while i < n
        invariant
            i <= n,
            used.len() == i,
        decreases n - i,
    {
        used.push(false);
        i += 1;
    }
    let mut u = zeros(m);
    let mut pivot_rows: Vec<usize> = Vec::new();
    let mut pivot_cols: Vec<usize> = Vec::new();
    let mut col: usize = 0;
    while col < m
        invariant
            col <= m,
            m < usize::MAX,
            a.len() == n,
            used.len() == n,
            has_width(a@, (m + 1) as nat),
            pivot_rows.len() == pivot_cols.len(),
            forall|t: int| 0 <= t < pivot_rows.len() ==> (#[trigger] pivot_rows@[t]) < n,
            forall|t: int| 0 <= t < pivot_cols.len() ==> (#[trigger] pivot_cols@[t]) < m,
        decreases m - col,
    {
        let found = find_pivot(&a, &used, col);
        if found < n {
            used[found] = true;
            let inverse = a[found][col].inverse();
            let pivot = row_scaled(&a[found], &inverse);
            let mut r: usize = 0;
            while r < n
                invariant
                    r <= n,
                    found < n,
                    col < m,
                    a.len() == n,
                    has_width(a@, (m + 1) as nat),
                    pivot.len() == m + 1,
                decreases n - r,
            {
                if r != found {
                    let factor = a[r][col];
                    if !factor.is_zero() {
                        let reduced = row_reduced(&a[r], &pivot, &factor);
                        a[r] = reduced;
                    }
                }
                r += 1;
            }
            a[found] = pivot;
            pivot_rows.push(found);
            pivot_cols.push(col);
        }
        col += 1;
    }
    let mut t: usize = 0;
    while t < pivot_rows.len()
        invariant
            t <= pivot_rows.len(),
            u.len() == m,
            a.len() == n,
            has_width(a@, (m + 1) as nat),
            pivot_rows.len() == pivot_cols.len(),
            forall|s: int| 0 <= s < pivot_rows.len() ==> (#[trigger] pivot_rows@[s]) < n,
            forall|s: int| 0 <= s < pivot_cols.len() ==> (#[trigger] pivot_cols@[s]) < m,
        decreases pivot_rows.len() - t,
    {
        let row = pivot_rows[t];
        let column = pivot_cols[t];
        u[column] = a[row][m];
        t += 1;
    }
    u
}

/// The quotient, with `k` coefficients, of the polynomial with the coefficients
/// `u[..e + k]` by the monic polynomial of degree `e` with the lower coefficients
/// `u[e + k..]`. Only the length of the quotient is stated: it is a candidate that the
/// decoder checks.
fn quotient(u: &Vec<Scalar>, e: usize, k: usize) -> (p: Vec<Scalar>)
    requires
        e + k + e == u.len(),
    ensures
        p.len() == k,
{
    let mut rem: Vec<Scalar> = Vec::with_capacity(e + k);
    let mut i: usize = 0;
    while i < e + k
        invariant
            i <= e + k,
            e + k + e == u.len(),
            rem.len() == i,
        decreases e + k - i,
    {
        rem.push(u[i]);
        i += 1;
    }
    let mut p = zeros(k);
    let mut d: usize = k;
    while d > 0
        invariant
            d <= k,
            e + k + e == u.len(),
            rem.len() == e + k,
            p.len() == k,
        decreases d,
    {
        d -= 1;
        let coefficient = rem[d + e];
        p[d] = coefficient;
        let mut j: usize = 0;
        while j < e
            invariant
                j <= e,
                d < k,
                e + k + e == u.len(),
                rem.len() == e + k,
            decreases e - j,
        {
            let reduced = rem[d + j].sub(&coefficient.mul(&u[e + k + j]));
            rem[d + j] = reduced;
            j += 1;
        }
    }
    p
}

/// The scalars of a slice at the given places.
fn picked_scalars(s: &[Scalar], hint: &[usize]) -> (r: Vec<Scalar>)
    requires
        forall|i: int| 0 <= i < hint.len() ==> (#[trigger] hint@[i]) < s.len(),
    ensures
        r.len() == hint.len(),
        scalar_values(r@) == picked(scalar_values(s@), positions_of(hint@)),
{
    let mut out: Vec<Scalar> = Vec::with_capacity(hint.len());
    let mut i: usize = 0;
    while i < hint.len()
        invariant
            i <= hint.len(),
            out.len() == i,
            forall|j: int| 0 <= j < hint.len() ==> (#[trigger] hint@[j]) < s.len(),
            forall|j: int| 0 <= j < i ==> out@[j] == s@[hint@[j] as int],
        decreases hint.len() - i,
    {
        out.push(s[hint[i]]);
        i += 1;
    }
    assert(scalar_values(out@) =~= picked(scalar_values(s@), positions_of(hint@)));
    out
}

/// Whether `hint` names `k` places among `n`.
fn hint_is_usable(hint: &[usize], n: usize, k: usize) -> (r: bool)
    ensures
        r == is_hint(positions_of(hint@), n as nat, k as nat),
{
    if hint.len() != k {
        return false;
    }
    let mut i: usize = 0;
    while i < k
        invariant
            i <= k,
            k == hint.len(),
            forall|j: int| 0 <= j < i ==> (#[trigger] positions_of(hint@)[j]) < n,
        decreases k - i,
    {
        if hint[i] >= n {
            assert(positions_of(hint@)[i as int] >= n);
            return false;
        }
        i += 1;
    }
    true
}

/// Decodes the values of `shares`, taken at the indices of `precompute`, to a
/// polynomial with `k` coefficients, lowest degree first. The places in `hint` are
/// those whose points the caller expects to be right.
///
/// The polynomial through the points at the `k` places of the hint is tried first, and
/// returned if all points but at most `(n − k) / 2` lie on it. Otherwise, or where the
/// hint does not name `k` places, the key equation is solved, and its solution returned
/// if it passes the same count. Nothing is returned where the number of shares is not
/// the number of indices, or `k` is zero or exceeds it.
pub fn decode_with_hint(precompute: &Precompute, shares: &[Share], k: usize, hint: &[usize]) -> (r:
    Option<Vec<Scalar>>)
    ensures
        r is Some ==> is_decoding(
            scalar_values(r->0@),
            precompute@,
            share_values(shares@),
            k as nat,
        ),
        shares.len() != precompute@.len() || k == 0 || k > precompute@.len() ==> r is None,
        is_hint(positions_of(hint@), precompute@.len(), k as nat) && is_decoding(
            hinted_interpolant(precompute@, share_values(shares@), positions_of(hint@)),
            precompute@,
            share_values(shares@),
            k as nat,
        ) ==> r is Some && scalar_values(r->0@) == hinted_interpolant(
            precompute@,
            share_values(shares@),
            positions_of(hint@),
        ),
{
    let n = precompute.indices.len();
    if shares.len() != n || k == 0 || k > n {
        return None;
    }
    let mut ys: Vec<Scalar> = Vec::with_capacity(n);
    let mut i: usize = 0;
    while i < n
        invariant
            i <= n,
            n == shares.len(),
            ys.len() == i,
            forall|j: int| 0 <= j < i ==> ys@[j] == shares@[j].value,
        decreases n - i,
    {
        ys.push(shares[i].value);
        i += 1;
    }
    assert(scalar_values(ys@) =~= share_values(shares@));
    let e = (n - k) / 2;

    if hint_is_usable(hint, n, k) {
        assert forall|j: int| 0 <= j < hint.len() implies (#[trigger] hint@[j]) < n by {
            assert(positions_of(hint@)[j] < n);
        }
        let hinted_xs = picked_scalars(precompute.indices.as_slice(), hint);
        let hinted_ys = picked_scalars(ys.as_slice(), hint);
        let candidate = interpolate_polynomial(hinted_xs.as_slice(), hinted_ys.as_slice());
        let count = count_agreements(
            candidate.as_slice(),
            precompute.indices.as_slice(),
            ys.as_slice(),
        );
        if count as u128 + e as u128 >= n as u128 {
            return Some(candidate);
        }
    }
    if n == usize::MAX {
        return None;
    }
    let quotient_len = e + k;
    let m = quotient_len + e;
    let mut a: Vec<Vec<Scalar>> = Vec::with_capacity(n);
    i = 0;
    while i < n
        invariant
            i <= n,
            n == precompute.indices.len(),
            n == ys.len(),
            m == quotient_len + e,
            m < usize::MAX,
            a.len() == i,
            has_width(a@, (m + 1) as nat),
        decreases n - i,
    {
        a.push(key_equation_row(&precompute.indices[i], &ys[i], quotient_len, e));
        i += 1;
    }
    let u = solve(a, m);
    let p = quotient(&u, e, k);
    let count = count_agreements(p.as_slice(), precompute.indices.as_slice(), ys.as_slice());
    if count as u128 + e as u128 >= n as u128 {
        Some(p)
    } else {
        None
    }
}

/// The places `0, 1, …, k − 1`.
pub fn first_places(k: usize) -> (r: Vec<usize>)
    ensures
        positions_of(r@) == Seq::new(k as nat, |i: int| i),
{
    let mut out: Vec<usize> = Vec::with_capacity(k);
    let mut i: usize = 0;
    while i < k
        invariant
            i <= k,
            out.len() == i,
            forall|j: int| 0 <= j < i ==> out@[j] == j,
        decreases k - i,
    {
        out.push(i);
        i += 1;
    }
    assert(positions_of(out@) =~= Seq::new(k as nat, |i: int| i));
    out
}

/// Decodes the values of `shares`, taken at the indices of `precompute`, to a
/// polynomial with `k` coefficients, lowest degree first.
///
/// The polynomial through the first `k` points is tried first, and returned if all
/// points but at most `(n − k) / 2` lie on it. Otherwise the key equation is solved, and
/// its solution returned if it passes the same count. Nothing is returned where the
/// number of shares is not the number of indices, or `k` is zero or exceeds it.
pub fn decode_with_precompute(precompute: &Precompute, shares: &[Share], k: usize) -> (r: Option<
    Vec<Scalar>,
>)
    ensures
        r is Some ==> is_decoding(
            scalar_values(r->0@),
            precompute@,
            share_values(shares@),
            k as nat,
        ),
        shares.len() != precompute@.len() || k == 0 || k > precompute@.len() ==> r is None,
        is_decoding(
            first_interpolant(precompute@, share_values(shares@), k as nat),
            precompute@,
            share_values(shares@),
            k as nat,
        ) ==> r is Some && scalar_values(r->0@) == first_interpolant(
            precompute@,
            share_values(shares@),
            k as nat,
        ),
{
    let hint = first_places(k);
    proof {
        let xs = precompute@;
        let ys = share_values(shares@);
        if 1 <= k <= xs.len() && xs.len() == ys.len() {
            assert(picked(xs, positions_of(hint@)) =~= xs.take(k as int));
            assert(picked(ys, positions_of(hint@)) =~= ys.take(k as int));
        }
    }
    decode_with_hint(precompute, shares, k, hint.as_slice())
}

} // verus!
