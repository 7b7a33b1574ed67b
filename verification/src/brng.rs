//! Batched random number generation: every contributor deals a sharing of a random
//! secret, and the output sharing is the sum of the contributions.

use vstd::prelude::*;
use vstd::arithmetic::div_mod::{lemma_add_mod_noop, lemma_small_mod};
use crate::params::Parameters;
use crate::scalar::{group_order, lemma_order_bounds, Scalar};
use crate::sss::scalar_values;
use crate::vss::{
    commitment_sum, dealt_commitment, dealt_shares, vshare_is_valid, vshare_models,
    vshare_secret, vshare_sum, vshare_valid, SharingCommitment, VShare, VShareModel, VSharing,
};

verus! {

/// Why a batch of contributions was refused.
#[derive(Clone, Copy, Debug, PartialEq, Eq)]
pub enum BRNGError {
    WrongNumberOfContributions,
    InvalidCommitments,
    WrongIndex,
    InvalidShare,
}

/// The slots of a batch, each with the contributions to it.
pub open spec fn slots(batch: Seq<Vec<(VShare, SharingCommitment)>>) -> Seq<
    Seq<(VShare, SharingCommitment)>,
> {
    Seq::new(batch.len(), |i: int| batch[i]@)
}

/// Whether every commitment of a slot has length `k`.
pub open spec fn slot_commitments_have_length(
    slot: Seq<(VShare, SharingCommitment)>,
    k: nat,
) -> bool {
    forall|j: int| 0 <= j < slot.len() ==> (#[trigger] slot[j]).1@.len() == k
}

/// Whether every share of a slot has the given index.
pub open spec fn slot_shares_have_index(slot: Seq<(VShare, SharingCommitment)>, index: nat) -> bool {
    forall|j: int| 0 <= j < slot.len() ==> (#[trigger] slot[j]).0@.index == index
}

/// Whether every share of a slot opens the commitment that it comes with.
pub open spec fn slot_shares_valid(slot: Seq<(VShare, SharingCommitment)>, h: Seq<u8>) -> bool {
    forall|j: int|
        0 <= j < slot.len() ==> vshare_valid((#[trigger] slot[j]).0@, slot[j].1@, h)
}

/// The verdict on a batch of contributions: the first kind of error that applies to any
/// slot, in the order of the kinds, or `Ok`.
pub open spec fn validation(
    k: nat,
    index: nat,
    h: Seq<u8>,
    batch: Seq<Seq<(VShare, SharingCommitment)>>,
) -> Result<(), BRNGError> {
    if exists|i: int| 0 <= i < batch.len() && (#[trigger] batch[i]).len() != k {
        Err(BRNGError::WrongNumberOfContributions)
    } else if exists|i: int|
        0 <= i < batch.len() && !slot_commitments_have_length(#[trigger] batch[i], k) {
        Err(BRNGError::InvalidCommitments)
    } else if exists|i: int|
        0 <= i < batch.len() && !slot_shares_have_index(#[trigger] batch[i], index) {
        Err(BRNGError::WrongIndex)
    } else if exists|i: int| 0 <= i < batch.len() && !slot_shares_valid(#[trigger] batch[i], h) {
        Err(BRNGError::InvalidShare)
    } else {
        Ok(())
    }
}

/// The sum of the first `n` shares of a slot, from the first on.
pub open spec fn vshare_total(slot: Seq<(VShare, SharingCommitment)>, n: nat) -> VShareModel
    decreases n,
{
    if n <= 1 {
        slot[0].0@
    } else {
        vshare_sum(vshare_total(slot, (n - 1) as nat), slot[n - 1].0@)
    }
}

/// The sum of the first `n` commitments of a slot, from the first on.
pub open spec fn commitment_total(slot: Seq<(VShare, SharingCommitment)>, n: nat) -> Seq<Seq<u8>>
    decreases n,
{
    if n <= 1 {
        slot[0].1@
    } else {
        commitment_sum(commitment_total(slot, (n - 1) as nat), slot[n - 1].1@)
    }
}

/// The sum over the integers of the values of the first `n` shares of a slot.
pub open spec fn value_sum(slot: Seq<(VShare, SharingCommitment)>, n: nat) -> nat
    decreases n,
{
    if n == 0 {
        0
    } else {
        value_sum(slot, (n - 1) as nat) + slot[n - 1].0@.value
    }
}

/// The sum over the integers of the decommitments of the first `n` shares of a slot.
pub open spec fn decommitment_sum(slot: Seq<(VShare, SharingCommitment)>, n: nat) -> nat
    decreases n,
{
    if n == 0 {
        0
    } else {
        decommitment_sum(slot, (n - 1) as nat) + slot[n - 1].0@.decommitment
    }
}

/// The share that the contributions to a slot add up to has the index of the first
/// contribution; its value is the sum of all values, and its decommitment the sum of
/// all decommitments, modulo the group order.
pub proof fn lemma_total_is_sum(slot: Seq<(VShare, SharingCommitment)>, n: nat)
    requires
        1 <= n <= slot.len(),
        forall|i: int|
            0 <= i < n ==> (#[trigger] slot[i]).0@.value < group_order() && slot[i].0@.decommitment
                < group_order(),
    ensures
        vshare_total(slot, n) == (VShareModel {
            index: slot[0].0@.index,
            value: value_sum(slot, n) % group_order(),
            decommitment: decommitment_sum(slot, n) % group_order(),
        }),
    decreases n,
{
    let m = group_order();
    lemma_order_bounds();
    if n == 1 {
        assert(value_sum(slot, 1) == slot[0].0@.value) by {
            assert(value_sum(slot, 0) == 0);
        }
        assert(decommitment_sum(slot, 1) == slot[0].0@.decommitment) by {
            assert(decommitment_sum(slot, 0) == 0);
        }
        lemma_small_mod(slot[0].0@.value, m);
        lemma_small_mod(slot[0].0@.decommitment, m);
    } else {
        lemma_total_is_sum(slot, (n - 1) as nat);
        let last = slot[n - 1].0@;
        lemma_small_mod(last.value, m);
        lemma_small_mod(last.decommitment, m);
        lemma_add_mod_noop(value_sum(slot, (n - 1) as nat) as int, last.value as int, m as int);
        lemma_add_mod_noop(
            decommitment_sum(slot, (n - 1) as nat) as int,
            last.decommitment as int,
            m as int,
        );
    }
}

/// Whether a sharing was dealt over `indices` with threshold `k` and the generator `h`.
pub open spec fn is_dealt(sharing: VSharing, indices: Seq<nat>, k: nat, h: Seq<u8>) -> bool {
    exists|a: Seq<nat>, b: Seq<nat>|
        a.len() == k && b.len() == k && vshare_models(sharing.vshares@) == dealt_shares(
            indices,
            a,
            b,
        ) && sharing.commitment@ == #[trigger] dealt_commitment(h, a, b)
}

/// Deals `b` sharings of fresh random secrets with threshold `k`.
pub fn create_sharing_batch(b: usize, k: usize, params: &Parameters) -> (r: Vec<VSharing>)
    requires
        k >= 1,
    ensures
        r.len() == b,
        forall|i: int|
            0 <= i < b ==> is_dealt(
                #[trigger] r@[i],
                scalar_values(params.indices@),
                k as nat,
                params.h@,
            ),
{
    let mut sharing_batch: Vec<VSharing> = Vec::with_capacity(b);
    let mut i: usize = 0;
    while i < b
        invariant
            i <= b,
            k >= 1,
            sharing_batch.len() == i,
            forall|j: int|
                0 <= j < i ==> is_dealt(
                    #[trigger] sharing_batch@[j],
                    scalar_values(params.indices@),
                    k as nat,
                    params.h@,
                ),
        decreases b - i,
    {
        let secret = Scalar::new_random();
        let (vshares, commitment) = vshare_secret(
            &params.h,
            params.indices.as_slice(),
            &secret,
            k,
        );
        let sharing = VSharing { vshares, commitment };
        assert(is_dealt(sharing, scalar_values(params.indices@), k as nat, params.h@));
        sharing_batch.push(sharing);
        i += 1;
    }
    sharing_batch
}

fn commitments_have_length(slot: &Vec<(VShare, SharingCommitment)>, k: usize) -> (r: bool)
    ensures
        r == slot_commitments_have_length(slot@, k as nat),
{
    let mut j: usize = 0;
    while j < slot.len()
        invariant
            j <= slot.len(),
            forall|l: int| 0 <= l < j ==> (#[trigger] slot@[l]).1@.len() == k,
        decreases slot.len() - j,
    {
        if slot[j].1.len() != k {
            return false;
        }
        j += 1;
    }
    true
}

fn shares_have_index(slot: &Vec<(VShare, SharingCommitment)>, index: &Scalar) -> (r: bool)
    ensures
        r == slot_shares_have_index(slot@, index@),
{
    let mut j: usize = 0;
    while j < slot.len()
        invariant
            j <= slot.len(),
            forall|l: int| 0 <= l < j ==> (#[trigger] slot@[l]).0@.index == index@,
        decreases slot.len() - j,
    {
        if !slot[j].0.share.index.eq(index) {
            return false;
        }
        j += 1;
    }
    true
}

fn shares_valid(slot: &Vec<(VShare, SharingCommitment)>, params: &Parameters) -> (r: bool)
    ensures
        r == slot_shares_valid(slot@, params.h@),
{
    let mut j: usize = 0;
    while j < slot.len()
        invariant
            j <= slot.len(),
            forall|l: int|
                0 <= l < j ==> vshare_valid((#[trigger] slot@[l]).0@, slot@[l].1@, params.h@),
        decreases slot.len() - j,
    {
        if !vshare_is_valid(&slot[j].0, &slot[j].1, &params.h) {
            return false;
        }
        j += 1;
    }
    true
}

/// Checks a batch of contributions: for each slot, the pairs of share and commitment of
/// the `k` contributors.
pub fn is_valid(k: usize, params: &Parameters, batch: &[Vec<(VShare, SharingCommitment)>]) -> (r:
    Result<(), BRNGError>)
    ensures
        r == validation(k as nat, params.index@, params.h@, slots(batch@)),
{
    let ghost all = slots(batch@);
    let mut i: usize = 0;
    while i < batch.len()
        invariant
            i <= batch.len(),
            all == slots(batch@),
            forall|l: int| 0 <= l < i ==> (#[trigger] all[l]).len() == k,
        decreases batch.len() - i,
    {
        if batch[i].len() != k {
            assert(all[i as int].len() != k);
            return Err(BRNGError::WrongNumberOfContributions);
        }
        i += 1;
    }
    i = 0;
    while i < batch.len()
        invariant
            i <= batch.len(),
            all == slots(batch@),
            forall|l: int| 0 <= l < all.len() ==> (#[trigger] all[l]).len() == k,
            forall|l: int| 0 <= l < i ==> slot_commitments_have_length(#[trigger] all[l], k as nat),
        decreases batch.len() - i,
    {
        if !commitments_have_length(&batch[i], k) {
            assert(!slot_commitments_have_length(all[i as int], k as nat));
            return Err(BRNGError::InvalidCommitments);
        }
        i += 1;
    }
    i = 0;
    while i < batch.len()
        invariant
            i <= batch.len(),
            all == slots(batch@),
            forall|l: int| 0 <= l < all.len() ==> (#[trigger] all[l]).len() == k,
            forall|l: int|
                0 <= l < all.len() ==> slot_commitments_have_length(#[trigger] all[l], k as nat),
            forall|l: int| 0 <= l < i ==> slot_shares_have_index(#[trigger] all[l], params.index@),
        decreases batch.len() - i,
    {
        if !shares_have_index(&batch[i], &params.index) {
            assert(!slot_shares_have_index(all[i as int], params.index@));
            return Err(BRNGError::WrongIndex);
        }
        i += 1;
    }
    i = 0;
    while i < batch.len()
        invariant
            i <= batch.len(),
            all == slots(batch@),
            forall|l: int| 0 <= l < all.len() ==> (#[trigger] all[l]).len() == k,
            forall|l: int|
                0 <= l < all.len() ==> slot_commitments_have_length(#[trigger] all[l], k as nat),
            forall|l: int|
                0 <= l < all.len() ==> slot_shares_have_index(#[trigger] all[l], params.index@),
            forall|l: int| 0 <= l < i ==> slot_shares_valid(#[trigger] all[l], params.h@),
        decreases batch.len() - i,
    {
        if !shares_valid(&batch[i], params) {
            assert(!slot_shares_valid(all[i as int], params.h@));
            return Err(BRNGError::InvalidShare);
        }
        i += 1;
    }
    Ok(())
}

fn sum_sharing(slot: &Vec<(VShare, SharingCommitment)>) -> (r: (VShare, SharingCommitment))
    requires
        slot.len() > 0,
    ensures
        r.0@ == vshare_total(slot@, slot.len() as nat),
        r.1@ == commitment_total(slot@, slot.len() as nat),
{
    let mut acc_vshare = slot[0].0;
    let mut acc_commitment = slot[0].1.clone();
    let mut j: usize = 1;
    while j < slot.len()
        invariant
            1 <= j <= slot.len(),
            acc_vshare@ == vshare_total(slot@, j as nat),
            acc_commitment@ == commitment_total(slot@, j as nat),
        decreases slot.len() - j,
    {
        acc_vshare.add_assign_mut(&slot[j].0);
        acc_commitment.add_assign_mut(&slot[j].1);
        j += 1;
    }
    (acc_vshare, acc_commitment)
}

/// The output sharing of each slot: the sum of the shares and the sum of the
/// commitments of its contributions.
pub fn output_sharing_batch(batch: &[Vec<(VShare, SharingCommitment)>]) -> (r: (
    Vec<VShare>,
    Vec<SharingCommitment>,
))
    requires
        forall|i: int| 0 <= i < batch.len() ==> (#[trigger] batch@[i]).len() > 0,
    ensures
        r.0.len() == batch.len(),
        r.1.len() == batch.len(),
        forall|i: int|
            0 <= i < batch.len() ==> (#[trigger] r.0@[i])@ == vshare_total(
                batch@[i]@,
                batch@[i].len() as nat,
            ),
        forall|i: int|
            0 <= i < batch.len() ==> (#[trigger] r.1@[i])@ == commitment_total(
                batch@[i]@,
                batch@[i].len() as nat,
            ),
{
    let mut vshares: Vec<VShare> = Vec::with_capacity(batch.len());
    let mut commitments: Vec<SharingCommitment> = Vec::with_capacity(batch.len());
    let mut i: usize = 0;
    while i < batch.len()
        invariant
            i <= batch.len(),
            vshares.len() == i,
            commitments.len() == i,
            forall|l: int| 0 <= l < batch.len() ==> (#[trigger] batch@[l]).len() > 0,
            forall|l: int|
                0 <= l < i ==> (#[trigger] vshares@[l])@ == vshare_total(
                    batch@[l]@,
                    batch@[l].len() as nat,
                ),
            forall|l: int|
                0 <= l < i ==> (#[trigger] commitments@[l])@ == commitment_total(
                    batch@[l]@,
                    batch@[l].len() as nat,
                ),
        decreases batch.len() - i,
    {
        let (vshare, commitment) = sum_sharing(&batch[i]);
        vshares.push(vshare);
        commitments.push(commitment);
        i += 1;
    }
    (vshares, commitments)
}

} // verus!
