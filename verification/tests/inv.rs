use mpc::group::Gej;
use mpc::inv::inv_transform_mulopen_output;
use mpc::mulopen;
use mpc::scalar::Scalar;
use mpc::sss::Share;
use mpc::testutil;
use mpc::vss::{self, VShare};

fn small(v: u8) -> Scalar {
    let mut bytes = [0u8; 32];
    bytes[31] = v;
    Scalar::from_be_bytes(bytes).unwrap()
}

#[test]
fn output_is_inversion_of_input() {
    let n = 10;
    let k = 3;
    let b = 2;

    let threshold = 2 * k - 1;
    let h = Gej::new_random();
    let indices = vss::random_scalars(n);

    let (mut a_shares_by_player, a_commitments, a_secrets, _) =
        testutil::random_sharing_batch(n, k, b, &indices, &h);
    let (r_shares_by_player, r_commitments, _, _) =
        testutil::random_sharing_batch(n, k, b, &indices, &h);
    let (mut z_shares_by_player, z_commitments) =
        testutil::zero_sharing_batch(n, k, b, &indices, &h);
    let mut r_shares_by_player_input = r_shares_by_player.clone();
    let mut inv_secrets = Vec::with_capacity(b);
    for secret in a_secrets.iter() {
        inv_secrets.push(secret.inverse());
    }
    let mut states = Vec::with_capacity(n);
    for _player in 0..n {
        let mut state = Vec::with_capacity(b);
        for _batch in 0..b {
            state.push(Vec::with_capacity(threshold));
        }
        states.push(state);
    }
    let mut player_outputs = Vec::with_capacity(n);

    for count in 1..=n {
        let message_batch = mulopen::initial_message_batch(
            a_shares_by_player.pop().unwrap(),
            r_shares_by_player_input.pop().unwrap(),
            z_shares_by_player.pop().unwrap(),
            &h,
        );

        for (state, r_shares) in states
            .iter_mut()
            .zip(r_shares_by_player.clone().into_iter())
        {
            let res = mulopen::handle_message_batch(
                state,
                message_batch.clone(),
                &a_commitments,
                &r_commitments,
                &z_commitments,
                &h,
            )
            .map(|opt| opt.map(|secrets| inv_transform_mulopen_output(r_shares, secrets)));
            if count != threshold {
                assert_eq!(res, Ok(None));
            } else {
                assert!(res.is_ok());
                let opt = res.unwrap();
                assert!(opt.is_some());
                player_outputs.push(opt.unwrap());
            }
        }
    }

    let output_sharings = testutil::transpose(player_outputs);
    for (sharing, a_inv) in output_sharings.iter().zip(inv_secrets.iter()) {
        let (output, _) = vss::interpolate_shares_at_zero(sharing);
        assert_eq!(&output, a_inv);
    }
}

#[test]
fn inv_roundtrip_over_any_k_shares() {
    let n = 10;
    let k = 3;
    let b = 2;
    let h = Gej::new_random();
    let indices = vss::random_scalars(n);
    let (a_shares, a_commitments, a_secrets, _) =
        testutil::random_sharing_batch(n, k, b, &indices, &h);
    let (r_shares, r_commitments, _, _) = testutil::random_sharing_batch(n, k, b, &indices, &h);
    let (z_shares, z_commitments) = testutil::zero_sharing_batch(n, k, b, &indices, &h);

    let mut state: Vec<Vec<Share>> = vec![Vec::new(); b];
    let mut opened = None;
    for player in 0..(2 * k - 1) {
        let batch = mulopen::initial_message_batch(
            a_shares[player].clone(),
            r_shares[player].clone(),
            z_shares[player].clone(),
            &h,
        );
        opened = mulopen::handle_message_batch(
            &mut state,
            batch,
            &a_commitments,
            &r_commitments,
            &z_commitments,
            &h,
        )
        .unwrap();
    }
    let opened = opened.unwrap();

    let outputs: Vec<Vec<VShare>> = r_shares
        .iter()
        .map(|shares| inv_transform_mulopen_output(shares.clone(), opened.clone()))
        .collect();
    let by_slot = testutil::transpose(outputs);
    for (sharing, secret) in by_slot.iter().zip(a_secrets.iter()) {
        let (first, _) = vss::interpolate_shares_at_zero(&sharing[..k]);
        let (last, _) = vss::interpolate_shares_at_zero(&sharing[n - k..]);
        assert_eq!(first, secret.inverse());
        assert_eq!(last, secret.inverse());
        assert_eq!(first.mul(secret), Scalar::one());
    }
}

#[test]
fn shares_are_scaled_by_the_inverse() {
    let index = small(9);
    let shares = vec![
        VShare { share: Share { index, value: small(6) }, decommitment: small(8) },
        VShare { share: Share { index, value: small(10) }, decommitment: small(15) },
        VShare { share: Share { index, value: small(1) }, decommitment: small(2) },
    ];
    let out = inv_transform_mulopen_output(shares.clone(), vec![small(2), small(5)]);
    assert_eq!(
        out,
        vec![
            VShare { share: Share { index, value: small(3) }, decommitment: small(4) },
            VShare { share: Share { index, value: small(2) }, decommitment: small(3) },
            shares[2],
        ]
    );
    assert_eq!(inv_transform_mulopen_output(vec![], vec![small(2)]), vec![]);
}
