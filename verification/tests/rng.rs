use mpc::group::Gej;
use mpc::open::{InstanceParams, OpenError, State};
use mpc::params::Parameters;
use mpc::rng::{
    handle_directed_vshare_batch, initial_messages_batch_rng, initial_messages_batch_rzg,
    output_commitment_batch_rng, output_commitment_batch_rzg, own_commitment_batch_rng,
    own_commitment_batch_rzg, DirectedVShare,
};
use mpc::scalar::Scalar;
use mpc::sss::Share;
use mpc::testutil;
use mpc::vss::{self, SharingCommitment, VShare};

fn small(v: u8) -> Scalar {
    let mut bytes = [0u8; 32];
    bytes[31] = v;
    Scalar::from_be_bytes(bytes).unwrap()
}

fn params_and_state(
    indices: &[Scalar],
    h: Gej,
    inst_params: &[InstanceParams],
) -> (Vec<Parameters>, Vec<State>) {
    let n = indices.len();
    let mut player_params = Vec::with_capacity(n);
    for index in indices.iter() {
        player_params.push(Parameters {
            indices: indices.to_vec(),
            index: *index,
            h,
        });
    }
    let mut states = Vec::with_capacity(n);
    for inst_params in inst_params.iter() {
        states.push(State::new(inst_params));
    }

    (player_params, states)
}

#[test]
fn rng_produces_valid_sharing() {
    let n = 10;
    let k = 5;
    let b = 3;

    let h = Gej::new_random();
    let indices = vss::random_scalars(n);
    let (inputs_by_player, commitments) = testutil::rxg_inputs(k, b, &indices, &h);
    let output_commitments = output_commitment_batch_rng(&commitments);

    let mut player_inst_params = Vec::with_capacity(n);
    for index in indices.iter() {
        player_inst_params.push(InstanceParams::new(own_commitment_batch_rng(
            &commitments,
            index,
        )));
    }
    let (player_params, mut states) = params_and_state(&indices, h, &player_inst_params);

    for sender in 0..k - 1 {
        let messages = initial_messages_batch_rng(&inputs_by_player[sender], &indices);
        for (i, message) in messages.into_iter().enumerate() {
            let res = handle_directed_vshare_batch(
                &mut states[i],
                &player_inst_params[i],
                &player_params[i],
                message,
            );
            assert!(res.is_ok());
        }
    }

    let messages = initial_messages_batch_rng(&inputs_by_player[k], &indices);
    for (i, message) in messages.into_iter().enumerate() {
        let res = handle_directed_vshare_batch(
            &mut states[i],
            &player_inst_params[i],
            &player_params[i],
            message,
        );
        assert!(res.is_ok());
        let res = res.unwrap();
        assert!(res.is_some());
        let vshares = res.unwrap();
        for (vshare, commitment) in vshares.iter().zip(output_commitments.iter()) {
            assert!(vss::vshare_is_valid(vshare, commitment, &h));
        }
    }
}

#[test]
fn rzg_produces_valid_sharing() {
    let n = 10;
    let k = 5;
    let b = 3;

    let h = Gej::new_random();
    let indices = vss::random_scalars(n);
    let (inputs_by_player, commitments) = testutil::rxg_inputs(k, b, &indices, &h);
    let output_commitments = output_commitment_batch_rzg(&commitments);

    let mut player_inst_params = Vec::with_capacity(n);
    for index in indices.iter() {
        player_inst_params.push(InstanceParams::new(own_commitment_batch_rzg(
            &commitments,
            index,
        )));
    }
    let (player_params, mut states) = params_and_state(&indices, h, &player_inst_params);

    for sender in 0..k - 1 {
        let messages = initial_messages_batch_rzg(&inputs_by_player[sender], &indices);
        for (i, message) in messages.into_iter().enumerate() {
            let res = handle_directed_vshare_batch(
                &mut states[i],
                &player_inst_params[i],
                &player_params[i],
                message,
            );
            assert!(res.is_ok());
        }
    }

    let mut all_shares = Vec::<Vec<_>>::with_capacity(b);
    all_shares.resize_with(b, || vec![]);
    let messages = initial_messages_batch_rzg(&inputs_by_player[k], &indices);
    for (i, message) in messages.into_iter().enumerate() {
        let res = handle_directed_vshare_batch(
            &mut states[i],
            &player_inst_params[i],
            &player_params[i],
            message,
        );
        assert!(res.is_ok());
        let res = res.unwrap();
        assert!(res.is_some());
        let vshares = res.unwrap();
        for (vshare, commitment) in vshares.iter().zip(output_commitments.iter()) {
            assert!(vss::vshare_is_valid(vshare, commitment, &h));
        }

        for (i, vshare) in vshares.into_iter().enumerate() {
            all_shares[i].push(vshare);
        }
    }

    for sharing in all_shares {
        let (secret, _) = vss::interpolate_shares_at_zero(&sharing);
        assert!(secret.is_zero());
    }
}

fn coefficient(index: &Scalar, value: u8, decommitment: u8) -> VShare {
    VShare { share: Share { index: *index, value: small(value) }, decommitment: small(decommitment) }
}

#[test]
fn initial_messages_evaluate_the_coefficients_at_each_index() {
    let own = small(9);
    // Values 1 + 2x + 3x^2, decommitments 4 + 5x.
    let coeffs = vec![coefficient(&own, 1, 4), coefficient(&own, 2, 5), coefficient(&own, 3, 0)];
    let indices = vec![small(1), small(2)];
    let messages = initial_messages_batch_rng(&[coeffs.clone(), coeffs.clone()], &indices);
    let at_one = DirectedVShare { vshare: coefficient(&own, 6, 9), to: small(1) };
    let at_two = DirectedVShare { vshare: coefficient(&own, 17, 14), to: small(2) };
    assert_eq!(messages, vec![vec![at_one, at_one], vec![at_two, at_two]]);

    let messages = initial_messages_batch_rzg(&[coeffs], &indices);
    let at_one = DirectedVShare { vshare: coefficient(&own, 6, 9), to: small(1) };
    let at_two = DirectedVShare { vshare: coefficient(&own, 34, 28), to: small(2) };
    assert_eq!(messages, vec![vec![at_one], vec![at_two]]);

    let none: Vec<Vec<VShare>> = vec![];
    assert_eq!(initial_messages_batch_rng(&none, &indices), vec![vec![], vec![]]);
}

#[test]
fn commitments_of_own_and_output_sharings() {
    let p = Gej::new_random();
    let q = Gej::new_random();
    let r = Gej::new_random();
    let s = Gej::new_random();
    let coeffs = vec![
        SharingCommitment::new_from_vec(vec![p, q]),
        SharingCommitment::new_from_vec(vec![r, s]),
    ];
    let x = small(3);
    let own = own_commitment_batch_rng(&[coeffs.clone()], &x);
    let expected =
        SharingCommitment::new_from_vec(vec![r.scalar_mul(&x).add(&p), s.scalar_mul(&x).add(&q)]);
    assert_eq!(own, vec![expected.clone()]);
    let own = own_commitment_batch_rzg(&[coeffs.clone()], &x);
    let mut scaled = expected;
    scaled.scale_assign_mut(&x);
    assert_eq!(own, vec![scaled]);

    assert_eq!(
        output_commitment_batch_rng(&[coeffs.clone()]),
        vec![SharingCommitment::new_from_vec(vec![p, r])]
    );
    assert_eq!(
        output_commitment_batch_rzg(&[coeffs]),
        vec![SharingCommitment::new_from_vec(vec![Gej::infinity(), p, r])]
    );
}

#[test]
fn a_refused_directed_batch_changes_nothing() {
    let n = 4;
    let k = 2;
    let b = 2;
    let h = Gej::new_random();
    let indices = vss::random_scalars(n);
    let (inputs_by_player, commitments) = testutil::rxg_inputs(k, b, &indices, &h);
    let inst_params = InstanceParams::new(own_commitment_batch_rng(&commitments, &indices[0]));
    let params = Parameters { indices: indices.clone(), index: indices[0], h };
    let mut state = State::new(&inst_params);

    let to_first = |sender: usize| {
        initial_messages_batch_rng(&inputs_by_player[sender], &indices).remove(0)
    };
    let mut bad = to_first(1);
    bad[0].vshare.share.value = Scalar::new_random();
    assert_eq!(
        handle_directed_vshare_batch(&mut state, &inst_params, &params, bad),
        Err(OpenError::InvalidShare)
    );
    assert_eq!(state.shares_received(), 0);
    assert_eq!(
        handle_directed_vshare_batch(&mut state, &inst_params, &params, to_first(1)),
        Ok(None)
    );
    let out = handle_directed_vshare_batch(&mut state, &inst_params, &params, to_first(2))
        .unwrap()
        .unwrap();
    assert_eq!(out.len(), b);
    for vshare in out.iter() {
        assert_eq!(vshare.share.index, indices[0]);
    }
    assert_eq!(
        handle_directed_vshare_batch(&mut state, &inst_params, &params, to_first(3)),
        Ok(None)
    );
}
