//! Sharings for trying the protocols out: batches of random sharings, of sharings of
//! zero, and the coefficient sharings from which random sharings are generated.

use vstd::prelude::*;
use crate::group::Gej;
use crate::scalar::Scalar;
use crate::sss::scalar_values;
use crate::vss::{
    dealt_commitment, dealt_shares, random_scalars, vshare_models, vshare_secret,
    vshare_secret_and_decommitment, SharingCommitment, VShare,
};

verus! {

/// Whether all rows of a matrix have the same length.
pub open spec fn is_rectangular<T>(mat: Seq<Vec<T>>) -> bool {
    forall|i: int, j: int|
        0 <= i < mat.len() && 0 <= j < mat.len() ==> (#[trigger] mat[i]).len() == (
        #[trigger] mat[j]).len()
}

/// Whether `shares` and `commitment` are a sharing of `secret` over `indices` with
/// threshold `k` and the generator `h`.
pub open spec fn is_sharing_of(
    shares: Seq<VShare>,
    commitment: Seq<Seq<u8>>,
    indices: Seq<nat>,
    k: nat,
    h: Seq<u8>,
    secret: nat,
) -> bool {
    exists|a: Seq<nat>, b: Seq<nat>|
        a.len() == k && b.len() == k && a[0] == secret && vshare_models(shares) == dealt_shares(
            indices,
            a,
            b,
        ) && commitment == #[trigger] dealt_commitment(h, a, b)
}

/// Whether `shares` and `commitment` are a sharing of `secret` with the decommitment
/// `decommitment` over `indices`, with threshold `k` and the generator `h`.
pub open spec fn is_sharing_with(
    shares: Seq<VShare>,
    commitment: Seq<Seq<u8>>,
    indices: Seq<nat>,
    k: nat,
    h: Seq<u8>,
    secret: nat,
    decommitment: nat,
) -> bool {
    exists|a: Seq<nat>, b: Seq<nat>|
        a.len() == k && b.len() == k && a[0] == secret && b[0] == decommitment && vshare_models(
            shares,
        ) == dealt_shares(indices, a, b) && commitment == #[trigger] dealt_commitment(h, a, b)
}

/// The shares of slot `slot`, one of each player.
pub open spec fn column(by_player: Seq<Vec<VShare>>, slot: int) -> Seq<VShare> {
    Seq::new(by_player.len(), |p: int| by_player[p]@[slot])
}

/// The shares of coefficient `c` of slot `slot`, one of each player.
pub open spec fn coefficient_column(inputs: Seq<Vec<Vec<VShare>>>, slot: int, c: int) -> Seq<
    VShare,
> {
    Seq::new(inputs.len(), |p: int| inputs[p]@[slot]@[c])
}

/// The transpose of a matrix: entry `i` of row `j` becomes entry `j` of row `i`.
pub fn transpose<T: Clone>(mat: Vec<Vec<T>>) -> (r: Vec<Vec<T>>)
    requires
        mat.len() > 0,
        is_rectangular(mat@),
    ensures
        r.len() == mat@[0].len(),
        forall|i: int| 0 <= i < r.len() ==> (#[trigger] r@[i]).len() == mat.len(),
        forall|i: int, j: int|
            0 <= i < r.len() && 0 <= j < mat.len() ==> cloned(
                #[trigger] mat@[j]@[i],
                #[trigger] r@[i]@[j],
            ),
{
    let num_rows = mat.len();
    let num_cols = mat[0].len();
    let mut transposed: Vec<Vec<T>> = Vec::with_capacity(num_cols);
    let mut i: usize = 0;
    while i < num_cols
        invariant
            i <= num_cols,
            num_rows == mat.len(),
            num_rows > 0,
            num_cols == mat@[0].len(),
            is_rectangular(mat@),
            transposed.len() == i,
            forall|l: int| 0 <= l < i ==> (#[trigger] transposed@[l]).len() == num_rows,
            forall|l: int, j: int|
                0 <= l < i && 0 <= j < num_rows ==> cloned(
                    #[trigger] mat@[j]@[l],
                    #[trigger] transposed@[l]@[j],
                ),
        decreases num_cols - i,
    {
        let mut row: Vec<T> = Vec::with_capacity(num_rows);
        let mut j: usize = 0;
        while j < num_rows
            invariant
                j <= num_rows,
                i < num_cols,
                num_rows == mat.len(),
                num_cols == mat@[0].len(),
                is_rectangular(mat@),
                row.len() == j,
                forall|l: int| 0 <= l < j ==> cloned(#[trigger] mat@[l]@[i as int], row@[l]),
            decreases num_rows - j,
        {
            assert(mat@[j as int].len() == mat@[0].len());
            row.push(mat[j][i].clone());
            j += 1;
        }
        transposed.push(row);
        i += 1;
    }
    transposed
}

/// Deals `b` sharings of random secrets with random decommitments over `indices`, with
/// threshold `k`. Returns the shares by player, the commitments, the secrets and the
/// decommitments.
pub fn random_sharing_batch(n: usize, k: usize, b: usize, indices: &[Scalar], h: &Gej) -> (r: (
    Vec<Vec<VShare>>,
    Vec<SharingCommitment>,
    Vec<Scalar>,
    Vec<Scalar>,
))
    requires
        n == indices.len(),
        k >= 1,
        b >= 1,
    ensures
        r.0.len() == n,
        forall|p: int| 0 <= p < n ==> (#[trigger] r.0@[p]).len() == b,
        r.1.len() == b,
        r.2.len() == b,
        r.3.len() == b,
        forall|slot: int|
            0 <= slot < b ==> is_sharing_with(
                column(r.0@, slot),
                (#[trigger] r.1@[slot])@,
                scalar_values(indices@),
                k as nat,
                h@,
                r.2@[slot]@,
                r.3@[slot]@,
            ),
{
    let secrets = random_scalars(b);
    let decommitments = random_scalars(b);
    let mut sharing_batch: Vec<Vec<VShare>> = Vec::with_capacity(b);
    let mut commitment_batch: Vec<SharingCommitment> = Vec::with_capacity(b);
    let mut i: usize = 0;
    while i < b
        invariant
            i <= b,
            k >= 1,
            n == indices.len(),
            secrets.len() == b,
            decommitments.len() == b,
            sharing_batch.len() == i,
            commitment_batch.len() == i,
            forall|l: int| 0 <= l < i ==> (#[trigger] sharing_batch@[l]).len() == n,
            forall|l: int|
                0 <= l < i ==> is_sharing_with(
                    sharing_batch@[l]@,
                    (#[trigger] commitment_batch@[l])@,
                    scalar_values(indices@),
                    k as nat,
                    h@,
                    secrets@[l]@,
                    decommitments@[l]@,
                ),
        decreases b - i,
    {
        let (vshares, commitment) = vshare_secret_and_decommitment(
            h,
            indices,
            &secrets[i],
            &decommitments[i],
            k,
        );
        assert(is_sharing_with(
            vshares@,
            commitment@,
            scalar_values(indices@),
            k as nat,
            h@,
            secrets@[i as int]@,
            decommitments@[i as int]@,
        ));
        assert(vshares.len() == n) by {
            assert(vshare_models(vshares@).len() == scalar_values(indices@).len());
        }
        sharing_batch.push(vshares);
        commitment_batch.push(commitment);
        i += 1;
    }
    let ghost dealt = sharing_batch@;
    let vshare_batches = transpose(sharing_batch);
    proof {
        assert forall|slot: int| 0 <= slot < b implies is_sharing_with(
            column(vshare_batches@, slot),
            (#[trigger] commitment_batch@[slot])@,
            scalar_values(indices@),
            k as nat,
            h@,
            secrets@[slot]@,
            decommitments@[slot]@,
        ) by {
            assert forall|p: int| 0 <= p < n implies column(vshare_batches@, slot)[p]
                == dealt[slot]@[p] by {
                assert(cloned(dealt[slot]@[p], vshare_batches@[p]@[slot]));
            }
            assert(dealt[slot].len() == n);
            assert(column(vshare_batches@, slot) =~= dealt[slot]@);
        }
    }
    (vshare_batches, commitment_batch, secrets, decommitments)
}

/// Deals `b` sharings of zero over `indices`, with threshold `k`. Returns the shares by
/// player and the commitments.
pub fn zero_sharing_batch(n: usize, k: usize, b: usize, indices: &[Scalar], h: &Gej) -> (r: (
    Vec<Vec<VShare>>,
    Vec<SharingCommitment>,
))
    requires
        n == indices.len(),
        k >= 1,
        b >= 1,
    ensures
        r.0.len() == n,
        forall|p: int| 0 <= p < n ==> (#[trigger] r.0@[p]).len() == b,
        r.1.len() == b,
        forall|slot: int|
            0 <= slot < b ==> is_sharing_of(
                column(r.0@, slot),
                (#[trigger] r.1@[slot])@,
                scalar_values(indices@),
                k as nat,
                h@,
                0,
            ),
{
    let mut sharing_batch: Vec<Vec<VShare>> = Vec::with_capacity(b);
    let mut commitment_batch: Vec<SharingCommitment> = Vec::with_capacity(b);
    let mut i: usize = 0;
    while i < b
        invariant
            i <= b,
            k >= 1,
            n == indices.len(),
            sharing_batch.len() == i,
            commitment_batch.len() == i,
            forall|l: int| 0 <= l < i ==> (#[trigger] sharing_batch@[l]).len() == n,
            forall|l: int|
                0 <= l < i ==> is_sharing_of(
                    sharing_batch@[l]@,
                    (#[trigger] commitment_batch@[l])@,
                    scalar_values(indices@),
                    k as nat,
                    h@,
                    0,
                ),
        decreases b - i,
    {
        let zero = Scalar::zero();
        let (vshares, commitment) = vshare_secret(h, indices, &zero, k);
        assert(is_sharing_of(vshares@, commitment@, scalar_values(indices@), k as nat, h@, 0));
        assert(vshares.len() == n) by {
            assert(vshare_models(vshares@).len() == scalar_values(indices@).len());
        }
        sharing_batch.push(vshares);
        commitment_batch.push(commitment);
        i += 1;
    }
    let ghost dealt = sharing_batch@;
    let vshare_batches = transpose(sharing_batch);
    proof {
        assert forall|slot: int| 0 <= slot < b implies is_sharing_of(
            column(vshare_batches@, slot),
            (#[trigger] commitment_batch@[slot])@,
            scalar_values(indices@),
            k as nat,
            h@,
            0,
        ) by {
            assert forall|p: int| 0 <= p < n implies column(vshare_batches@, slot)[p]
                == dealt[slot]@[p] by {
                assert(cloned(dealt[slot]@[p], vshare_batches@[p]@[slot]));
            }
            assert(dealt[slot].len() == n);
            assert(column(vshare_batches@, slot) =~= dealt[slot]@);
        }
    }
    (vshare_batches, commitment_batch)
}

/// Whether `shares` and `commitment` are a sharing over `indices` with threshold `k`
/// and the generator `h`.
pub open spec fn is_some_sharing(
    shares: Seq<VShare>,
    commitment: Seq<Seq<u8>>,
    indices: Seq<nat>,
    k: nat,
    h: Seq<u8>,
) -> bool {
    exists|a: Seq<nat>, b: Seq<nat>|
        a.len() == k && b.len() == k && vshare_models(shares) == dealt_shares(indices, a, b)
            && commitment == #[trigger] dealt_commitment(h, a, b)
}

/// The inputs of the generation of random sharings: for each of `b` slots, `k`
/// sharings of random coefficients with threshold `k`. Returns, for every player in the
/// order of `indices`, its shares by slot and coefficient; and the commitments by slot
/// and coefficient.
pub fn rxg_inputs(k: usize, b: usize, indices: &[Scalar], h: &Gej) -> (r: (
    Vec<Vec<Vec<VShare>>>,
    Vec<Vec<SharingCommitment>>,
))
    requires
        k >= 1,
    ensures
        r.0.len() == indices.len(),
        forall|p: int| 0 <= p < r.0.len() ==> (#[trigger] r.0@[p]).len() == b,
        forall|p: int, s: int|
            0 <= p < r.0.len() && 0 <= s < b ==> (#[trigger] r.0@[p]@[s]).len() == k,
        r.1.len() == b,
        forall|s: int| 0 <= s < b ==> (#[trigger] r.1@[s]).len() == k,
        forall|s: int, c: int|
            0 <= s < b && 0 <= c < k ==> is_some_sharing(
                coefficient_column(r.0@, s, c),
                (#[trigger] r.1@[s]@[c])@,
                scalar_values(indices@),
                k as nat,
                h@,
            ),
{
    let n = indices.len();
    let mut dealt: Vec<Vec<Vec<VShare>>> = Vec::with_capacity(b);
    let mut commitments: Vec<Vec<SharingCommitment>> = Vec::with_capacity(b);
    let mut s: usize = 0;
    while s < b
        invariant
            s <= b,
            k >= 1,
            n == indices.len(),
            dealt.len() == s,
            commitments.len() == s,
            forall|t: int| 0 <= t < s ==> (#[trigger] dealt@[t]).len() == k,
            forall|t: int| 0 <= t < s ==> (#[trigger] commitments@[t]).len() == k,
            forall|t: int, c: int|
                0 <= t < s && 0 <= c < k ==> (#[trigger] dealt@[t]@[c]).len() == n,
            forall|t: int, c: int|
                0 <= t < s && 0 <= c < k ==> is_some_sharing(
                    dealt@[t]@[c]@,
                    (#[trigger] commitments@[t]@[c])@,
                    scalar_values(indices@),
                    k as nat,
                    h@,
                ),
        decreases b - s,
    {
        let mut slot_shares: Vec<Vec<VShare>> = Vec::with_capacity(k);
        let mut slot_commitments: Vec<SharingCommitment> = Vec::with_capacity(k);
        let mut c: usize = 0;
        while c < k
            invariant
                c <= k,
                k >= 1,
                n == indices.len(),
                slot_shares.len() == c,
                slot_commitments.len() == c,
                forall|d: int| 0 <= d < c ==> (#[trigger] slot_shares@[d]).len() == n,
                forall|d: int|
                    0 <= d < c ==> is_some_sharing(
                        slot_shares@[d]@,
                        (#[trigger] slot_commitments@[d])@,
                        scalar_values(indices@),
                        k as nat,
                        h@,
                    ),
            decreases k - c,
        {
            let secret = Scalar::new_random();
            let (vshares, commitment) = vshare_secret(h, indices, &secret, k);
            assert(is_some_sharing(
                vshares@,
                commitment@,
                scalar_values(indices@),
                k as nat,
                h@,
            ));
            assert(vshares.len() == n) by {
                assert(vshare_models(vshares@).len() == scalar_values(indices@).len());
            }
            slot_shares.push(vshares);
            slot_commitments.push(commitment);
            c += 1;
        }
        dealt.push(slot_shares);
        commitments.push(slot_commitments);
        s += 1;
    }
    let mut inputs_by_player: Vec<Vec<Vec<VShare>>> = Vec::with_capacity(n);
    let mut p: usize = 0;
    while p < n
        invariant
            p <= n,
            dealt.len() == b,
            forall|t: int| 0 <= t < b ==> (#[trigger] dealt@[t]).len() == k,
            forall|t: int, c: int|
                0 <= t < b && 0 <= c < k ==> (#[trigger] dealt@[t]@[c]).len() == n,
            inputs_by_player.len() == p,
            forall|q: int| 0 <= q < p ==> (#[trigger] inputs_by_player@[q]).len() == b,
            forall|q: int, t: int|
                0 <= q < p && 0 <= t < b ==> (#[trigger] inputs_by_player@[q]@[t]).len() == k,
            forall|q: int, t: int, c: int|
                0 <= q < p && 0 <= t < b && 0 <= c < k ==> (
                #[trigger] inputs_by_player@[q]@[t]@[c]) == dealt@[t]@[c]@[q],
        decreases n - p,
    {
        let mut player: Vec<Vec<VShare>> = Vec::with_capacity(b);
        let mut t: usize = 0;
        while t < b
            invariant
                t <= b,
                p < n,
                dealt.len() == b,
                forall|u: int| 0 <= u < b ==> (#[trigger] dealt@[u]).len() == k,
                forall|u: int, c: int|
                    0 <= u < b && 0 <= c < k ==> (#[trigger] dealt@[u]@[c]).len() == n,
                player.len() == t,
                forall|u: int| 0 <= u < t ==> (#[trigger] player@[u]).len() == k,
                forall|u: int, c: int|
                    0 <= u < t && 0 <= c < k ==> (#[trigger] player@[u]@[c]) == dealt@[u]@[c]@[p as int],
            decreases b - t,
        {
            let mut coefficients: Vec<VShare> = Vec::with_capacity(k);
            let mut c: usize = 0;
            while c < k
                invariant
                    c <= k,
                    p < n,
                    t < b,
                    dealt.len() == b,
                    dealt@[t as int].len() == k,
                    forall|d: int| 0 <= d < k ==> (#[trigger] dealt@[t as int]@[d]).len() == n,
                    coefficients.len() == c,
                    forall|d: int|
                        0 <= d < c ==> (#[trigger] coefficients@[d]) == dealt@[t as int]@[d]@[p as int],
                decreases k - c,
            {
                coefficients.push(dealt[t][c][p]);
                c += 1;
            }
            player.push(coefficients);
            t += 1;
        }
        inputs_by_player.push(player);
        p += 1;
    }
    proof {
        assert forall|t: int, c: int| 0 <= t < b && 0 <= c < k implies is_some_sharing(
            coefficient_column(inputs_by_player@, t, c),
            (#[trigger] commitments@[t]@[c])@,
            scalar_values(indices@),
            k as nat,
            h@,
        ) by {
            assert(dealt@[t]@[c].len() == n);
            assert forall|q: int| 0 <= q < n implies coefficient_column(
                inputs_by_player@,
                t,
                c,
            )[q] == dealt@[t]@[c]@[q] by {
                assert(inputs_by_player@[q]@[t]@[c] == dealt@[t]@[c]@[q]);
            }
            assert(coefficient_column(inputs_by_player@, t, c) =~= dealt@[t]@[c]@);
        }
    }
    (inputs_by_player, commitments)
}

} // verus!
