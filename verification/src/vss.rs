//! Verifiable secret sharing with Pedersen commitments: verifiable shares, commitments
//! to sharing polynomials, the validity check, dealing and interpolation.

use vstd::prelude::*;
use crate::group::{gej_add, gej_base_mul, gej_mul, infinity_bytes, Gej};
use crate::scalar::{scalar_add, scalar_mul, Scalar};
use crate::sss::{
    interpolate_at_zero, interpolate_scalars_at_zero, poly_eval, poly_eval_scalars,
    scalar_values, Share,
};

verus! {

/// What a [`VShare`] stands for: a point of the sharing polynomial and the value of the
/// decommitment polynomial at the same index.
pub struct VShareModel {
    pub index: nat,
    pub value: nat,
    pub decommitment: nat,
}

/// A share together with its decommitment.
#[derive(Clone, Copy, Debug, PartialEq, Eq)]
pub struct VShare {
    pub share: Share,
    pub decommitment: Scalar,
}

impl View for VShare {
    type V = VShareModel;

    open spec fn view(&self) -> VShareModel {
        VShareModel {
            index: self.share.index@,
            value: self.share.value@,
            decommitment: self.decommitment@,
        }
    }
}

/// The commitment to a sharing: one Pedersen commitment for each pair of coefficients of
/// the sharing polynomial and the decommitment polynomial, lowest degree first.
#[derive(Debug, PartialEq, Eq)]
pub struct SharingCommitment {
    points: Vec<Gej>,
}

impl Clone for SharingCommitment {
    fn clone(&self) -> (r: SharingCommitment)
        ensures
            r@ == self@,
    {
        let mut points: Vec<Gej> = Vec::with_capacity(self.points.len());
        let mut i: usize = 0;
        while i < self.points.len()
            invariant
                i <= self.points.len(),
                points.len() == i,
                forall|j: int| 0 <= j < i ==> points@[j] == self.points@[j],
            decreases self.points.len() - i,
        {
            points.push(self.points[i]);
            i += 1;
        }
        assert(point_views(points@) =~= point_views(self.points@));
        SharingCommitment { points }
    }
}

/// The shares of one sharing, one for each party, and its commitment.
pub struct VSharing {
    pub vshares: Vec<VShare>,
    pub commitment: SharingCommitment,
}

/// The encodings of a sequence of group elements.
pub open spec fn point_views(s: Seq<Gej>) -> Seq<Seq<u8>> {
    Seq::new(s.len(), |i: int| s[i]@)
}

impl View for SharingCommitment {
    type V = Seq<Seq<u8>>;

    closed spec fn view(&self) -> Seq<Seq<u8>> {
        point_views(self.points@)
    }
}

/// The models of a sequence of verifiable shares.
pub open spec fn vshare_models(s: Seq<VShare>) -> Seq<VShareModel> {
    Seq::new(s.len(), |i: int| s[i]@)
}

/// The indices of a sequence of verifiable shares.
pub open spec fn vshare_indices(s: Seq<VShare>) -> Seq<nat> {
    Seq::new(s.len(), |i: int| s[i]@.index)
}

/// The values of a sequence of verifiable shares.
pub open spec fn vshare_values(s: Seq<VShare>) -> Seq<nat> {
    Seq::new(s.len(), |i: int| s[i]@.value)
}

/// The decommitments of a sequence of verifiable shares.
pub open spec fn vshare_decommitments(s: Seq<VShare>) -> Seq<nat> {
    Seq::new(s.len(), |i: int| s[i]@.decommitment)
}

/// The Pedersen commitment `g^value · h^decommitment`.
pub open spec fn ped(h: Seq<u8>, value: nat, decommitment: nat) -> Seq<u8> {
    gej_add(gej_base_mul(value), gej_mul(h, decommitment))
}

/// The value in the exponent at `x` of the commitments `c[from..]`, by Horner's rule.
pub open spec fn eval_in_exponent_from(c: Seq<Seq<u8>>, x: nat, from: int) -> Seq<u8>
    decreases c.len() - from,
{
    if from >= c.len() || from < 0 {
        infinity_bytes()
    } else {
        gej_add(gej_mul(eval_in_exponent_from(c, x, from + 1), x), c[from])
    }
}

/// The value in the exponent at `x` of a commitment vector, by Horner's rule.
pub open spec fn eval_in_exponent(c: Seq<Seq<u8>>, x: nat) -> Seq<u8> {
    eval_in_exponent_from(c, x, 0)
}

/// Whether a verifiable share opens the commitment vector at its index.
pub open spec fn vshare_valid(v: VShareModel, c: Seq<Seq<u8>>, h: Seq<u8>) -> bool {
    ped(h, v.value, v.decommitment) == eval_in_exponent(c, v.index)
}

/// The sum of two verifiable shares, at the index of the first.
pub open spec fn vshare_sum(a: VShareModel, b: VShareModel) -> VShareModel {
    VShareModel {
        index: a.index,
        value: scalar_add(a.value, b.value),
        decommitment: scalar_add(a.decommitment, b.decommitment),
    }
}

/// A verifiable share with value and decommitment multiplied by `s`.
pub open spec fn vshare_scaled(a: VShareModel, s: nat) -> VShareModel {
    VShareModel {
        index: a.index,
        value: scalar_mul(a.value, s),
        decommitment: scalar_mul(a.decommitment, s),
    }
}

/// The sum of two commitment vectors: componentwise where both have an entry, the first
/// vector's entry where only it has one.
pub open spec fn commitment_sum(a: Seq<Seq<u8>>, b: Seq<Seq<u8>>) -> Seq<Seq<u8>> {
    Seq::new(
        a.len(),
        |i: int|
            if i < b.len() {
                gej_add(a[i], b[i])
            } else {
                a[i]
            },
    )
}

/// A commitment vector with every entry multiplied by `s`.
pub open spec fn commitment_scaled(a: Seq<Seq<u8>>, s: nat) -> Seq<Seq<u8>> {
    Seq::new(a.len(), |i: int| gej_mul(a[i], s))
}

/// The shares of the sharing with the polynomials `a` and `b`, one for each index.
pub open spec fn dealt_shares(indices: Seq<nat>, a: Seq<nat>, b: Seq<nat>) -> Seq<VShareModel> {
    Seq::new(
        indices.len(),
        |i: int|
            VShareModel {
                index: indices[i],
                value: poly_eval(a, indices[i]),
                decommitment: poly_eval(b, indices[i]),
            },
    )
}

/// The commitment of the sharing with the polynomials `a` and `b`.
pub open spec fn dealt_commitment(h: Seq<u8>, a: Seq<nat>, b: Seq<nat>) -> Seq<Seq<u8>> {
    Seq::new(a.len(), |j: int| ped(h, a[j], b[j]))
}

/// Computes the Pedersen commitment `g^value · h^decommitment`.
pub fn ped_commit(h: &Gej, value: &Scalar, decommitment: &Scalar) -> (r: Gej)
    ensures
        r@ == ped(h@, value@, decommitment@),
{
    let left = Gej::scalar_base_mul(value);
    let right = h.scalar_mul(decommitment);
    left.add(&right)
}

impl VShare {
    /// Adds another verifiable share to this one; the index stays.
    pub fn add_assign_mut(&mut self, rhs: &VShare)
        ensures
            final(self)@ == vshare_sum(old(self)@, rhs@),
    {
        self.share.value = self.share.value.add(&rhs.share.value);
        self.decommitment = self.decommitment.add(&rhs.decommitment);
    }

    /// Multiplies value and decommitment by a scalar; the index stays.
    pub fn scale_assign_mut(&mut self, scalar: &Scalar)
        ensures
            final(self)@ == vshare_scaled(old(self)@, scalar@),
    {
        self.share.value = self.share.value.mul(scalar);
        self.decommitment = self.decommitment.mul(scalar);
    }
}

impl SharingCommitment {
    /// The commitment vector with the given entries.
    pub fn new_from_vec(points: Vec<Gej>) -> (r: SharingCommitment)
        ensures
            r@ == point_views(points@),
    {
        SharingCommitment { points }
    }

    /// An empty commitment vector with room for `capacity` entries.
    pub fn with_capacity(capacity: usize) -> (r: SharingCommitment)
        ensures
            r@.len() == 0,
    {
        SharingCommitment { points: Vec::with_capacity(capacity) }
    }

    /// The commitment vector of `len` identities.
    pub fn default_with_len(len: usize) -> (r: SharingCommitment)
        ensures
            r@ == Seq::new(len as nat, |i: int| infinity_bytes()),
    {
        let mut points: Vec<Gej> = Vec::with_capacity(len);
        let mut i: usize = 0;
        while i < len
            invariant
                i <= len,
                points.len() == i,
                forall|j: int| 0 <= j < i ==> points@[j]@ == infinity_bytes(),
            decreases len - i,
        {
            points.push(Gej::infinity());
            i += 1;
        }
        assert(point_views(points@) =~= Seq::new(len as nat, |i: int| infinity_bytes()));
        SharingCommitment { points }
    }

    /// The number of entries: the threshold of the sharing.
    pub fn len(&self) -> (r: usize)
        ensures
            r == self@.len(),
    {
        self.points.len()
    }

    /// The entry at position `i`.
    pub fn get(&self, i: usize) -> (r: Gej)
        requires
            i < self@.len(),
        ensures
            r@ == self@[i as int],
    {
        self.points[i]
    }

    /// Appends an entry.
    pub fn push(&mut self, point: Gej)
        ensures
            final(self)@ == old(self)@.push(point@),
    {
        self.points.push(point);
        assert(point_views(self.points@) =~= point_views(old(self).points@).push(point@));
    }

    /// Adds another commitment vector to this one, entry by entry.
    pub fn add_assign_mut(&mut self, rhs: &SharingCommitment)
        ensures
            final(self)@ == commitment_sum(old(self)@, rhs@),
    {
        let n = if self.points.len() < rhs.points.len() {
            self.points.len()
        } else {
            rhs.points.len()
        };
        let mut i: usize = 0;
        while i < n
            invariant
                i <= n,
                n <= rhs.points.len(),
                n <= self.points.len(),
                n == self.points.len() || n == rhs.points.len(),
                self.points.len() == old(self).points.len(),
                forall|j: int|
                    0 <= j < i ==> self.points@[j]@ == gej_add(
                        old(self).points@[j]@,
                        rhs.points@[j]@,
                    ),
                forall|j: int|
                    i <= j < self.points.len() ==> self.points@[j] == old(self).points@[j],
            decreases n - i,
        {
            let sum = self.points[i].add(&rhs.points[i]);
            self.points[i] = sum;
            i += 1;
        }
        assert(point_views(self.points@) =~= commitment_sum(
            point_views(old(self).points@),
            point_views(rhs.points@),
        ));
    }

    /// Multiplies every entry by a scalar.
    pub fn scale_assign_mut(&mut self, scalar: &Scalar)
        ensures
            final(self)@ == commitment_scaled(old(self)@, scalar@),
    {
        let mut i: usize = 0;
        while i < self.points.len()
            invariant
                i <= self.points.len(),
                self.points.len() == old(self).points.len(),
                forall|j: int|
                    0 <= j < i ==> self.points@[j]@ == gej_mul(old(self).points@[j]@, scalar@),
                forall|j: int|
                    i <= j < self.points.len() ==> self.points@[j] == old(self).points@[j],
            decreases self.points.len() - i,
        {
            let scaled = self.points[i].scalar_mul(scalar);
            self.points[i] = scaled;
            i += 1;
        }
        assert(point_views(self.points@) =~= commitment_scaled(
            point_views(old(self).points@),
            scalar@,
        ));
    }
}

/// Evaluates a commitment vector in the exponent at `index`, by Horner's rule.
pub fn poly_eval_gej_slice_in_exponent(commitment: &SharingCommitment, index: &Scalar) -> (r:
    Gej)
    ensures
        r@ == eval_in_exponent(commitment@, index@),
{
    let mut acc = Gej::infinity();
    let mut i: usize = commitment.len();
    while i > 0
        invariant
            i <= commitment@.len(),
            acc@ == eval_in_exponent_from(commitment@, index@, i as int),
        decreases i,
    {
        i -= 1;
        acc = acc.scalar_mul(index).add(&commitment.get(i));
    }
    acc
}

/// Checks a verifiable share against the commitment of its sharing.
pub fn vshare_is_valid(vshare: &VShare, commitment: &SharingCommitment, h: &Gej) -> (r: bool)
    ensures
        r == vshare_valid(vshare@, commitment@, h@),
{
    let expected = poly_eval_gej_slice_in_exponent(commitment, &vshare.share.index);
    let actual = ped_commit(h, &vshare.share.value, &vshare.decommitment);
    actual.eq(&expected)
}

/// Interpolates verifiable shares at zero: the secret of their sharing and its
/// decommitment.
pub fn interpolate_shares_at_zero(vshares: &[VShare]) -> (r: (Scalar, Scalar))
    ensures
        r.0@ == interpolate_at_zero(vshare_indices(vshares@), vshare_values(vshares@)),
        r.1@ == interpolate_at_zero(vshare_indices(vshares@), vshare_decommitments(vshares@)),
{
    let mut indices: Vec<Scalar> = Vec::with_capacity(vshares.len());
    let mut values: Vec<Scalar> = Vec::with_capacity(vshares.len());
    let mut decommitments: Vec<Scalar> = Vec::with_capacity(vshares.len());
    let mut i: usize = 0;
    while i < vshares.len()
        invariant
            i <= vshares.len(),
            indices.len() == i,
            values.len() == i,
            decommitments.len() == i,
            forall|j: int| 0 <= j < i ==> indices@[j] == vshares@[j].share.index,
            forall|j: int| 0 <= j < i ==> values@[j] == vshares@[j].share.value,
            forall|j: int| 0 <= j < i ==> decommitments@[j] == vshares@[j].decommitment,
        decreases vshares.len() - i,
    {
        indices.push(vshares[i].share.index);
        values.push(vshares[i].share.value);
        decommitments.push(vshares[i].decommitment);
        i += 1;
    }
    assert(scalar_values(indices@) =~= vshare_indices(vshares@));
    assert(scalar_values(values@) =~= vshare_values(vshares@));
    assert(scalar_values(decommitments@) =~= vshare_decommitments(vshares@));
    let secret = interpolate_scalars_at_zero(indices.as_slice(), values.as_slice());
    let decommitment = interpolate_scalars_at_zero(indices.as_slice(), decommitments.as_slice());
    (secret, decommitment)
}

/// Deals the sharing with the given sharing polynomial and decommitment polynomial,
/// coefficients from the lowest degree up: one verifiable share for each index, and the
/// commitment.
pub fn vshare_polynomials(
    h: &Gej,
    indices: &[Scalar],
    secret_poly: &[Scalar],
    decommitment_poly: &[Scalar],
) -> (r: (Vec<VShare>, SharingCommitment))
    requires
        secret_poly.len() == decommitment_poly.len(),
    ensures
        vshare_models(r.0@) == dealt_shares(
            scalar_values(indices@),
            scalar_values(secret_poly@),
            scalar_values(decommitment_poly@),
        ),
        r.1@ == dealt_commitment(
            h@,
            scalar_values(secret_poly@),
            scalar_values(decommitment_poly@),
        ),
{
    let mut vshares: Vec<VShare> = Vec::with_capacity(indices.len());
    let mut i: usize = 0;
    while i < indices.len()
        invariant
            i <= indices.len(),
            vshares.len() == i,
            forall|j: int|
                0 <= j < i ==> vshares@[j]@ == (VShareModel {
                    index: indices@[j]@,
                    value: poly_eval(scalar_values(secret_poly@), indices@[j]@),
                    decommitment: poly_eval(scalar_values(decommitment_poly@), indices@[j]@),
                }),
        decreases indices.len() - i,
    {
        let index = indices[i];
        let value = poly_eval_scalars(secret_poly, &index);
        let decommitment = poly_eval_scalars(decommitment_poly, &index);
        vshares.push(VShare { share: Share { index, value }, decommitment });
        i += 1;
    }
    let mut points: Vec<Gej> = Vec::with_capacity(secret_poly.len());
    let mut j: usize = 0;
    while j < secret_poly.len()
        invariant
            j <= secret_poly.len(),
            secret_poly.len() == decommitment_poly.len(),
            points.len() == j,
            forall|l: int|
                0 <= l < j ==> points@[l]@ == ped(h@, secret_poly@[l]@, decommitment_poly@[l]@),
        decreases secret_poly.len() - j,
    {
        points.push(ped_commit(h, &secret_poly[j], &decommitment_poly[j]));
        j += 1;
    }
    assert(vshare_models(vshares@) =~= dealt_shares(
        scalar_values(indices@),
        scalar_values(secret_poly@),
        scalar_values(decommitment_poly@),
    ));
    assert(point_views(points@) =~= dealt_commitment(
        h@,
        scalar_values(secret_poly@),
        scalar_values(decommitment_poly@),
    ));
    (vshares, SharingCommitment { points })
}

/// A vector of `len` scalars drawn at random.
pub fn random_scalars(len: usize) -> (r: Vec<Scalar>)
    ensures
        r.len() == len,
{
    let mut scalars: Vec<Scalar> = Vec::with_capacity(len);
    let mut i: usize = 0;
    while i < len
        invariant
            i <= len,
            scalars.len() == i,
        decreases len - i,
    {
        scalars.push(Scalar::new_random());
        i += 1;
    }
    scalars
}

/// Deals a sharing of `secret` with threshold `k`, with a given decommitment of the
/// secret: both polynomials have `k` coefficients, random but for the constant terms.
pub fn vshare_secret_and_decommitment(
    h: &Gej,
    indices: &[Scalar],
    secret: &Scalar,
    decommitment: &Scalar,
    k: usize,
) -> (r: (Vec<VShare>, SharingCommitment))
    requires
        k >= 1,
    ensures
        exists|a: Seq<nat>, b: Seq<nat>|
            a.len() == k && b.len() == k && a[0] == secret@ && b[0] == decommitment@
                && vshare_models(r.0@) == dealt_shares(scalar_values(indices@), a, b) && r.1@
                == #[trigger] dealt_commitment(h@, a, b),
{
    let mut secret_poly = random_scalars(k);
    let mut decommitment_poly = random_scalars(k);
    secret_poly[0] = *secret;
    decommitment_poly[0] = *decommitment;
    let r = vshare_polynomials(h, indices, secret_poly.as_slice(), decommitment_poly.as_slice());
    proof {
        let a = scalar_values(secret_poly@);
        let b = scalar_values(decommitment_poly@);
        assert(a.len() == k && b.len() == k && a[0] == secret@ && b[0] == decommitment@
            && vshare_models(r.0@) == dealt_shares(scalar_values(indices@), a, b) && r.1@
            == dealt_commitment(h@, a, b));
    }
    r
}

/// Deals a sharing of `secret` with threshold `k` and a random decommitment.
pub fn vshare_secret(h: &Gej, indices: &[Scalar], secret: &Scalar, k: usize) -> (r: (
    Vec<VShare>,
    SharingCommitment,
))
    requires
        k >= 1,
    ensures
        exists|a: Seq<nat>, b: Seq<nat>|
            a.len() == k && b.len() == k && a[0] == secret@ && vshare_models(r.0@)
                == dealt_shares(scalar_values(indices@), a, b) && r.1@
                == #[trigger] dealt_commitment(h@, a, b),
{
    let decommitment = Scalar::new_random();
    vshare_secret_and_decommitment(h, indices, secret, &decommitment, k)
}

} // verus!
