use mpc::group::Gej;
use mpc::reed_solomon::Precompute;
use mpc::rkpg::{handle_share_batch, initial_messages_batch, RKPGError, State};
use mpc::scalar::Scalar;
use mpc::sss::Share;
use mpc::testutil;
use mpc::vss::{self, SharingCommitment, VShare};

fn small(v: u8) -> Scalar {
    let mut bytes = [0u8; 32];
    bytes[31] = v;
    Scalar::from_be_bytes(bytes).unwrap()
}

#[test]
fn output_public_key_is_correct() {
    let n = 10;
    let k = 3;
    let b = 3;

    let h = Gej::new_random();
    let indices = vss::random_scalars(n);
    let precompute = Precompute::new(&indices);

    let (all_vshare_batches, commitment_batch, secrets, _) =
        testutil::random_sharing_batch(n, k, b, &indices, &h);

    let mut expected_pubkeys = Vec::with_capacity(b);
    for secret in secrets {
        expected_pubkeys.push(Gej::scalar_base_mul(&secret));
    }

    let mut all_initial_message_batches = Vec::with_capacity(n);
    for vshare_batch in all_vshare_batches {
        all_initial_message_batches.push(initial_messages_batch(&vshare_batch));
    }

    let mut state = State::new(&indices, b);

    let last_message_batches = all_initial_message_batches.split_off(n - k);
    for share_batch in all_initial_message_batches {
        let res =
            handle_share_batch(&mut state, share_batch, &precompute, &commitment_batch, &h);
        assert!(res.is_ok());
        assert_eq!(res.unwrap(), None);
    }

    for share_batch in last_message_batches {
        let res =
            handle_share_batch(&mut state, share_batch, &precompute, &commitment_batch, &h);
        assert!(res.is_ok());
        let opt = res.unwrap();
        assert!(opt.is_some());
        let pubkeys = opt.unwrap();
        assert_eq!(pubkeys, expected_pubkeys);
    }
}

struct Run {
    h: Gej,
    indices: Vec<Scalar>,
    precompute: Precompute,
    commitments: Vec<SharingCommitment>,
    messages: Vec<Vec<Share>>,
    keys: Vec<Gej>,
}

fn run(n: usize, k: usize, b: usize) -> Run {
    let h = Gej::new_random();
    let indices = vss::random_scalars(n);
    let precompute = Precompute::new(&indices);
    assert_eq!(precompute.len(), n);
    let (vshares, commitments, secrets, _) = testutil::random_sharing_batch(n, k, b, &indices, &h);
    Run {
        h,
        precompute,
        commitments,
        messages: vshares.iter().map(|batch| initial_messages_batch(batch)).collect(),
        keys: secrets.iter().map(Gej::scalar_base_mul).collect(),
        indices,
    }
}

fn handle(r: &Run, state: &mut State, batch: Vec<Share>) -> Result<Option<Vec<Gej>>, RKPGError> {
    handle_share_batch(state, batch, &r.precompute, &r.commitments, &r.h)
}

#[test]
fn the_messages_are_the_decommitments() {
    let a = VShare { share: Share { index: small(1), value: small(2) }, decommitment: small(3) };
    let b = VShare { share: Share { index: small(4), value: small(5) }, decommitment: small(6) };
    assert_eq!(
        initial_messages_batch(&[a, b]),
        vec![
            Share { index: small(1), value: small(3) },
            Share { index: small(4), value: small(6) },
        ]
    );
    assert_eq!(initial_messages_batch(&[]), vec![]);
}

#[test]
fn keys_come_after_n_minus_k_plus_one_senders_in_any_order() {
    let r = run(7, 2, 2);
    let mut state = State::new(&r.indices, 2);
    for sender in [6, 2, 4, 0, 1] {
        assert_eq!(handle(&r, &mut state, r.messages[sender].clone()), Ok(None));
    }
    assert_eq!(handle(&r, &mut state, r.messages[5].clone()), Ok(Some(r.keys.clone())));
    assert_eq!(handle(&r, &mut state, r.messages[3].clone()), Ok(Some(r.keys.clone())));
}

#[test]
fn a_share_batch_of_the_wrong_size_is_refused() {
    let r = run(5, 2, 2);
    let mut state = State::new(&r.indices, 2);
    let mut batch = r.messages[0].clone();
    batch.pop();
    assert_eq!(handle(&r, &mut state, batch), Err(RKPGError::IncorrectBatchSize));
    // As many shares as commitments, but not as many as the state has slots.
    let mut narrow = State::new(&r.indices, 1);
    assert_eq!(
        handle(&r, &mut narrow, r.messages[0].clone()),
        Err(RKPGError::IncorrectBatchSize)
    );
    // Nothing was recorded: the threshold is still four batches away.
    for sender in 0..3 {
        assert_eq!(handle(&r, &mut state, r.messages[sender].clone()), Ok(None));
    }
    assert_eq!(handle(&r, &mut state, r.messages[3].clone()), Ok(Some(r.keys.clone())));
}

#[test]
fn an_empty_batch_is_refused() {
    let h = Gej::new_random();
    let indices = vss::random_scalars(3);
    let precompute = Precompute::new(&indices);
    let mut state = State::new(&indices, 0);
    assert_eq!(
        handle_share_batch(&mut state, vec![], &precompute, &[], &h),
        Err(RKPGError::EmptyBatch)
    );
}

#[test]
fn a_share_batch_with_differing_indices_is_refused() {
    let r = run(5, 2, 2);
    let mut state = State::new(&r.indices, 2);
    let mut batch = r.messages[0].clone();
    batch[1] = r.messages[1][1];
    assert_eq!(handle(&r, &mut state, batch), Err(RKPGError::InconsistentShareIndices));
}

#[test]
fn a_share_batch_from_an_unknown_index_is_refused() {
    let r = run(5, 2, 2);
    let mut state = State::new(&r.indices, 2);
    let stranger = Scalar::new_random();
    let mut batch = r.messages[0].clone();
    for share in batch.iter_mut() {
        share.index = stranger;
    }
    assert_eq!(handle(&r, &mut state, batch), Err(RKPGError::IndexOutOfRange));
    let mut batch = r.messages[0].clone();
    batch[0].index = stranger;
    assert_eq!(handle(&r, &mut state, batch), Err(RKPGError::InconsistentShareIndices));
}

#[test]
fn wrong_decommitments_are_corrected_up_to_the_bound() {
    // With seven parties and two coefficients, two wrong points are tolerated.
    let r = run(7, 2, 1);
    let mut state = State::new(&r.indices, 1);
    let mut bad = r.messages[0].clone();
    bad[0].value = Scalar::new_random();
    assert_eq!(handle(&r, &mut state, bad), Ok(None));
    for sender in 1..5 {
        assert_eq!(handle(&r, &mut state, r.messages[sender].clone()), Ok(None));
    }
    // Six batches: one wrong, one missing.
    assert_eq!(handle(&r, &mut state, r.messages[5].clone()), Ok(Some(r.keys.clone())));
    assert_eq!(handle(&r, &mut state, r.messages[6].clone()), Ok(Some(r.keys.clone())));
}

#[test]
fn a_failure_to_decode_leaves_the_state_as_it_was() {
    // With four parties and two coefficients, one wrong point is tolerated.
    let r = run(4, 2, 1);
    let mut state = State::new(&r.indices, 1);
    let mut bad = r.messages[0].clone();
    bad[0].value = bad[0].value.add(&Scalar::one());
    assert_eq!(handle(&r, &mut state, bad), Ok(None));
    assert_eq!(handle(&r, &mut state, r.messages[1].clone()), Ok(None));
    // A third sender: one point wrong and one missing, which cannot be decoded.
    assert_eq!(handle(&r, &mut state, r.messages[2].clone()), Err(RKPGError::DecodeFailed));
    // Nothing was recorded: the same batch fails again, and so does another sender's.
    assert_eq!(handle(&r, &mut state, r.messages[2].clone()), Err(RKPGError::DecodeFailed));
    assert_eq!(handle(&r, &mut state, r.messages[3].clone()), Err(RKPGError::DecodeFailed));
    // The first sender's right share replaces the wrong one; still two senders.
    assert_eq!(handle(&r, &mut state, r.messages[0].clone()), Ok(None));
    // Now a third sender completes the recovery.
    assert_eq!(handle(&r, &mut state, r.messages[2].clone()), Ok(Some(r.keys.clone())));
    assert_eq!(handle(&r, &mut state, r.messages[3].clone()), Ok(Some(r.keys.clone())));
}

#[test]
fn only_distinct_senders_are_counted() {
    // With five parties and two coefficients, the keys come with the fourth sender.
    let r = run(5, 2, 2);
    let mut state = State::new(&r.indices, 2);
    for _ in 0..4 {
        assert_eq!(handle(&r, &mut state, r.messages[1].clone()), Ok(None));
    }
    assert_eq!(handle(&r, &mut state, r.messages[0].clone()), Ok(None));
    assert_eq!(handle(&r, &mut state, r.messages[0].clone()), Ok(None));
    assert_eq!(handle(&r, &mut state, r.messages[4].clone()), Ok(None));
    assert_eq!(handle(&r, &mut state, r.messages[1].clone()), Ok(None));
    assert_eq!(handle(&r, &mut state, r.messages[3].clone()), Ok(Some(r.keys.clone())));
    // A sender that was counted before is answered with the keys again.
    assert_eq!(handle(&r, &mut state, r.messages[0].clone()), Ok(Some(r.keys.clone())));
}

#[test]
fn the_key_is_the_commitment_less_the_decommitment_power() {
    let h = Gej::new_random();
    let secret = small(6);
    let decommitment = small(9);
    let c0 = vss::ped_commit(&h, &secret, &decommitment);
    let commitment = SharingCommitment::new_from_vec(vec![c0, Gej::new_random()]);
    assert_eq!(
        mpc::rkpg::recover_key(&h, &decommitment, &commitment),
        Gej::scalar_base_mul(&secret)
    );
    assert_eq!(mpc::rkpg::recover_key(&h, &Scalar::zero(), &commitment), c0);
}

#[test]
fn the_first_parties_need_not_have_sent() {
    // Nine parties, three coefficients: seven senders, the first two not among them.
    let r = run(9, 3, 2);
    let mut state = State::new(&r.indices, 2);
    for sender in [8, 7, 6, 5, 4, 3] {
        assert_eq!(handle(&r, &mut state, r.messages[sender].clone()), Ok(None));
    }
    assert_eq!(handle(&r, &mut state, r.messages[2].clone()), Ok(Some(r.keys.clone())));
}
