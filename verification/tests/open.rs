use mpc::group::Gej;
use mpc::open::{InstanceParams, OpenError, State};
use mpc::params::Parameters;
use mpc::scalar::Scalar;
use mpc::testutil;
use mpc::util::all_indices_equal_in_vshare_batch;
use mpc::vss::{self, VShare};

#[test]
fn handling_correct_shares() {
    let n = 10;
    let k = 5;
    let b = 3;

    let indices = vss::random_scalars(n);
    let index = indices[0];
    let h = Gej::new_random();
    let (vshare_batches, commitment_batch, secrets, decommitments) =
        testutil::random_sharing_batch(n, k, b, &indices, &h);

    let inst_params = InstanceParams::new(commitment_batch);
    let params = Parameters { indices, index, h };
    let state = State::new(&inst_params);

    vshare_batches
        .into_iter()
        .enumerate()
        .fold(state, |mut state, (i, vshare_batch)| {
            let res = state.handle_vshare_batch(&inst_params, &params, vshare_batch);
            if i + 1 != k {
                assert_eq!(res, Ok(None));
            } else {
                let reconstructed_values = res.unwrap().unwrap();
                assert!(secrets
                    .iter()
                    .zip(decommitments.iter())
                    .eq(reconstructed_values.iter().map(|(s, d)| (s, d))));
            }
            state
        });
}

struct Setup {
    inst_params: InstanceParams,
    params: Parameters,
    batches: Vec<Vec<VShare>>,
    secrets: Vec<Scalar>,
}

fn setup(n: usize, k: usize, b: usize) -> Setup {
    let indices = vss::random_scalars(n);
    let index = indices[0];
    let h = Gej::new_random();
    let (batches, commitment_batch, secrets, _) =
        testutil::random_sharing_batch(n, k, b, &indices, &h);
    Setup {
        inst_params: InstanceParams::new(commitment_batch),
        params: Parameters { indices, index, h },
        batches,
        secrets,
    }
}

#[test]
fn instance_parameters_report_threshold_and_size() {
    let s = setup(4, 3, 2);
    assert_eq!(s.inst_params.threshold(), 3);
    assert_eq!(s.inst_params.len(), 2);
    let state = State::new(&s.inst_params);
    assert_eq!(state.shares_received(), 0);
    assert!(!state.contains_vshare_with_index(&s.params.indices[0]));
    assert!(s.params.has_index(&s.params.indices[3]));
    assert!(!s.params.has_index(&Scalar::new_random()));
}

#[test]
fn a_batch_of_the_wrong_size_is_refused() {
    let s = setup(4, 2, 3);
    let mut state = State::new(&s.inst_params);
    let mut batch = s.batches[0].clone();
    batch.pop();
    assert_eq!(
        state.handle_vshare_batch(&s.inst_params, &s.params, batch),
        Err(OpenError::InvalidBatchSize)
    );
    assert_eq!(
        state.handle_vshare_batch(&s.inst_params, &s.params, vec![]),
        Err(OpenError::InvalidBatchSize)
    );
    assert_eq!(state.shares_received(), 0);
}

#[test]
fn a_batch_with_differing_indices_is_refused() {
    let s = setup(4, 2, 3);
    let mut state = State::new(&s.inst_params);
    let mut batch = s.batches[0].clone();
    batch[2] = s.batches[1][2];
    assert!(!all_indices_equal_in_vshare_batch(&batch));
    assert!(all_indices_equal_in_vshare_batch(&s.batches[0]));
    assert!(all_indices_equal_in_vshare_batch(&[]));
    assert_eq!(
        state.handle_vshare_batch(&s.inst_params, &s.params, batch),
        Err(OpenError::InconsistentIndices)
    );
    assert_eq!(state.shares_received(), 0);
}

#[test]
fn a_batch_from_an_unknown_index_is_refused() {
    let s = setup(4, 2, 3);
    let mut state = State::new(&s.inst_params);
    let stranger = Scalar::new_random();
    let mut batch = s.batches[0].clone();
    for vshare in batch.iter_mut() {
        vshare.share.index = stranger;
    }
    assert_eq!(
        state.handle_vshare_batch(&s.inst_params, &s.params, batch),
        Err(OpenError::InvalidIndex)
    );
    assert_eq!(state.shares_received(), 0);
}

#[test]
fn a_second_batch_from_the_same_index_is_refused() {
    let s = setup(4, 3, 2);
    let mut state = State::new(&s.inst_params);
    assert_eq!(
        state.handle_vshare_batch(&s.inst_params, &s.params, s.batches[1].clone()),
        Ok(None)
    );
    assert!(state.contains_vshare_with_index(&s.params.indices[1]));
    assert_eq!(
        state.handle_vshare_batch(&s.inst_params, &s.params, s.batches[1].clone()),
        Err(OpenError::DuplicateIndex)
    );
    assert_eq!(state.shares_received(), 1);
}

#[test]
fn open_rejects_bad_share() {
    let s = setup(5, 3, 2);
    let mut state = State::new(&s.inst_params);
    assert_eq!(
        state.handle_vshare_batch(&s.inst_params, &s.params, s.batches[0].clone()),
        Ok(None)
    );
    let mut bad = s.batches[1].clone();
    bad[1].share.value = bad[1].share.value.add(&Scalar::one());
    assert_eq!(
        state.handle_vshare_batch(&s.inst_params, &s.params, bad),
        Err(OpenError::InvalidShare)
    );
    assert_eq!(state.shares_received(), 1);
    assert!(!state.contains_vshare_with_index(&s.params.indices[1]));
    assert_eq!(
        state.handle_vshare_batch(&s.inst_params, &s.params, s.batches[1].clone()),
        Ok(None)
    );
    let res = state
        .handle_vshare_batch(&s.inst_params, &s.params, s.batches[2].clone())
        .unwrap()
        .unwrap();
    let opened: Vec<Scalar> = res.iter().map(|(secret, _)| *secret).collect();
    assert_eq!(opened, s.secrets);
}

#[test]
fn late_messages_change_nothing() {
    let s = setup(5, 2, 2);
    let mut state = State::new(&s.inst_params);
    assert_eq!(
        state.handle_vshare_batch(&s.inst_params, &s.params, s.batches[0].clone()),
        Ok(None)
    );
    assert!(state
        .handle_vshare_batch(&s.inst_params, &s.params, s.batches[1].clone())
        .unwrap()
        .is_some());
    assert_eq!(state.shares_received(), 2);
    let values = state.reconstruct_values();
    assert_eq!(
        state.handle_vshare_batch(&s.inst_params, &s.params, s.batches[2].clone()),
        Ok(None)
    );
    assert_eq!(state.shares_received(), 2);
    assert!(!state.contains_vshare_with_index(&s.params.indices[2]));
    assert_eq!(state.reconstruct_values(), values);
    assert_eq!(
        state.handle_vshare_batch(&s.inst_params, &s.params, s.batches[0].clone()),
        Err(OpenError::DuplicateIndex)
    );
}

#[test]
fn the_order_of_the_checks() {
    let s = setup(4, 2, 2);
    let mut state = State::new(&s.inst_params);
    // Differing indices come before an unknown index and an invalid share.
    let mut batch = s.batches[0].clone();
    batch[0].share.index = Scalar::new_random();
    batch[1].share.value = Scalar::new_random();
    assert_eq!(
        state.handle_vshare_batch(&s.inst_params, &s.params, batch),
        Err(OpenError::InconsistentIndices)
    );
    // A known index that has been seen comes before an invalid share.
    state
        .handle_vshare_batch(&s.inst_params, &s.params, s.batches[0].clone())
        .unwrap();
    let mut batch = s.batches[0].clone();
    batch[1].share.value = Scalar::new_random();
    assert_eq!(
        state.handle_vshare_batch(&s.inst_params, &s.params, batch),
        Err(OpenError::DuplicateIndex)
    );
}
