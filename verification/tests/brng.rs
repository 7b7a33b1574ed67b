use mpc::brng::{create_sharing_batch, is_valid, output_sharing_batch, BRNGError};
use mpc::group::Gej;
use mpc::params::Parameters;
use mpc::scalar::Scalar;
use mpc::sss::Share;
use mpc::vss::{self, SharingCommitment, VShare};

fn random_commitment(k: usize) -> SharingCommitment {
    let mut points = Vec::with_capacity(k);
    for _ in 0..k {
        points.push(Gej::new_random());
    }
    SharingCommitment::new_from_vec(points)
}

#[test]
fn output_shares_and_commitments_are_summed() {
    let k = 5;
    let b = 3;

    let index = Scalar::new_random();

    let mut vshare_sums = Vec::with_capacity(b);
    let mut commitment_sums = Vec::with_capacity(b);
    let mut batches: Vec<Vec<(VShare, SharingCommitment)>> = Vec::with_capacity(b);
    for _ in 0..b {
        vshare_sums.push(VShare {
            share: Share {
                index,
                value: Scalar::zero(),
            },
            decommitment: Scalar::zero(),
        });
        commitment_sums.push(SharingCommitment::default_with_len(k));
        batches.push(Vec::with_capacity(k));
    }
    for (batch, (vshare_sum, commitment_sum)) in batches
        .iter_mut()
        .zip(vshare_sums.iter_mut().zip(commitment_sums.iter_mut()))
    {
        for _ in 0..k {
            let value = Scalar::new_random();
            let decommitment = Scalar::new_random();
            let vshare = VShare {
                share: Share { index, value },
                decommitment,
            };
            vshare_sum.add_assign_mut(&vshare);

            let commitment = random_commitment(k);
            commitment_sum.add_assign_mut(&commitment);
            batch.push((vshare, commitment));
        }
    }

    let (output_shares, output_commitments) = output_sharing_batch(&batches);

    assert_eq!(output_shares.len(), b);
    assert_eq!(output_commitments.len(), b);
    for (vshare, check) in output_shares.iter().zip(vshare_sums.iter()) {
        assert_eq!(vshare, check);
    }
    for (commitment, check) in output_commitments.iter().zip(commitment_sums.iter()) {
        assert_eq!(commitment, check);
    }
}

fn contributions(k: usize, b: usize, params: &Parameters, position: usize) -> Vec<Vec<(VShare, SharingCommitment)>> {
    let mut batch: Vec<Vec<(VShare, SharingCommitment)>> = Vec::new();
    for _ in 0..b {
        batch.push(Vec::new());
    }
    for _ in 0..k {
        let sharings = create_sharing_batch(b, k, params);
        assert_eq!(sharings.len(), b);
        for (slot, sharing) in sharings.into_iter().enumerate() {
            assert_eq!(sharing.vshares.len(), params.indices.len());
            assert_eq!(sharing.commitment.len(), k);
            batch[slot].push((sharing.vshares[position], sharing.commitment));
        }
    }
    batch
}

fn parameters(n: usize, position: usize) -> Parameters {
    let indices = vss::random_scalars(n);
    let index = indices[position];
    Parameters { indices, index, h: Gej::new_random() }
}

#[test]
fn honest_contributions_are_valid_and_sum_to_a_valid_share() {
    let params = parameters(5, 2);
    let batch = contributions(3, 2, &params, 2);
    assert_eq!(is_valid(3, &params, &batch), Ok(()));
    let (shares, commitments) = output_sharing_batch(&batch);
    for (share, commitment) in shares.iter().zip(commitments.iter()) {
        assert_eq!(share.share.index, params.index);
        assert!(vss::vshare_is_valid(share, commitment, &params.h));
    }
    assert_eq!(is_valid(3, &params, &[]), Ok(()));
}

#[test]
fn a_slot_with_too_few_contributions_is_refused() {
    let params = parameters(5, 1);
    let mut batch = contributions(3, 2, &params, 1);
    batch[1].pop();
    assert_eq!(is_valid(3, &params, &batch), Err(BRNGError::WrongNumberOfContributions));
    assert_eq!(is_valid(2, &params, &batch), Err(BRNGError::WrongNumberOfContributions));
}

#[test]
fn a_commitment_of_the_wrong_length_is_refused() {
    let params = parameters(5, 1);
    let mut batch = contributions(3, 2, &params, 1);
    batch[0][2].1 = random_commitment(2);
    assert_eq!(is_valid(3, &params, &batch), Err(BRNGError::InvalidCommitments));
}

#[test]
fn a_share_of_another_party_is_refused() {
    let params = parameters(5, 1);
    let mut batch = contributions(3, 2, &params, 1);
    batch[1][0].0.share.index = params.indices[3];
    assert_eq!(is_valid(3, &params, &batch), Err(BRNGError::WrongIndex));
}

#[test]
fn a_tampered_contribution_is_refused() {
    let params = parameters(5, 1);
    let mut batch = contributions(3, 2, &params, 1);
    let value = batch[1][2].0.share.value;
    batch[1][2].0.share.value = value.add(&Scalar::one());
    assert_eq!(is_valid(3, &params, &batch), Err(BRNGError::InvalidShare));
}

#[test]
fn errors_come_in_the_order_of_their_kinds() {
    let params = parameters(5, 1);
    let mut batch = contributions(3, 3, &params, 1);
    batch[0][0].0.share.value = Scalar::new_random();
    batch[0][1].0.share.index = params.indices[0];
    assert_eq!(is_valid(3, &params, &batch), Err(BRNGError::WrongIndex));
    batch[1][1].1 = random_commitment(4);
    assert_eq!(is_valid(3, &params, &batch), Err(BRNGError::InvalidCommitments));
    batch[2].pop();
    assert_eq!(is_valid(3, &params, &batch), Err(BRNGError::WrongNumberOfContributions));
}
