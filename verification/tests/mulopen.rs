use mpc::group::Gej;
use mpc::mulopen::zkp::{
    message_and_nonce, message_for_nonce, new_challenge, response_for_challenge, verify_response,
    Nonce, Witness,
};
use mpc::mulopen::{
    handle_message_batch, initial_message_batch, initial_message_with, prove, prove_with_nonce,
    verify, Message, MulOpenErr,
};
use mpc::scalar::Scalar;
use mpc::sss::Share;
use mpc::testutil;
use mpc::vss::{self, ped_commit, SharingCommitment, VShare};
use sha2::{Digest, Sha256};

fn small(v: u8) -> Scalar {
    let mut bytes = [0u8; 32];
    bytes[31] = v;
    Scalar::from_be_bytes(bytes).unwrap()
}

#[test]
fn zkp_honest_inputs_construct_valid_proofs() {
    let h = Gej::new_random();

    let alpha = Scalar::new_random();
    let beta = Scalar::new_random();
    let rho = Scalar::new_random();
    let sigma = Scalar::new_random();
    let tau = Scalar::new_random();
    let witness = Witness::new(alpha, beta, rho, sigma, tau);

    let a = ped_commit(&h, &alpha, &rho);
    let b = ped_commit(&h, &beta, &sigma);
    let c = ped_commit(&h, &alpha.mul(&beta), &tau);

    let (message, nonce) = message_and_nonce(&b, &h);
    let challenge = new_challenge();
    let response = response_for_challenge(&challenge, &nonce, &witness);
    assert!(verify_response(
        &message, &challenge, &response, &h, &a, &b, &c
    ));
}

#[test]
fn mod_honest_inputs_construct_valid_proofs() {
    let h = Gej::new_random();

    let alpha = Scalar::new_random();
    let beta = Scalar::new_random();
    let rho = Scalar::new_random();
    let sigma = Scalar::new_random();
    let tau = Scalar::new_random();
    let witness = Witness::new(alpha, beta, rho, sigma, tau);

    let a = ped_commit(&h, &alpha, &rho);
    let b = ped_commit(&h, &beta, &sigma);
    let c = ped_commit(&h, &alpha.mul(&beta), &tau);

    let proof = prove(&witness, &a, &b, &c, &h);
    assert!(verify(&proof, &a, &b, &c, &h));
}

#[test]
fn output_secrets_are_the_product_of_inputs() {
    let n = 10;
    let k = 3;
    let b = 2;

    let threshold = 2 * k - 1;
    let h = Gej::new_random();
    let indices = vss::random_scalars(n);

    let (mut a_shares_by_player, a_commitments, a_secrets, _) =
        testutil::random_sharing_batch(n, k, b, &indices, &h);
    let (mut b_shares_by_player, b_commitments, b_secrets, _) =
        testutil::random_sharing_batch(n, k, b, &indices, &h);
    let (mut z_shares_by_player, z_commitments) =
        testutil::zero_sharing_batch(n, k, b, &indices, &h);
    let mut states = Vec::with_capacity(n);
    for _player in 0..n {
        let mut state = Vec::with_capacity(b);
        for _batch in 0..b {
            state.push(Vec::with_capacity(threshold));
        }
        states.push(state);
    }

    for count in 1..=n {
        let message_batch = initial_message_batch(
            a_shares_by_player.pop().unwrap(),
            b_shares_by_player.pop().unwrap(),
            z_shares_by_player.pop().unwrap(),
            &h,
        );

        for state in states.iter_mut() {
            let res = handle_message_batch(
                state,
                message_batch.clone(),
                &a_commitments,
                &b_commitments,
                &z_commitments,
                &h,
            );
            if count != threshold {
                assert_eq!(res, Ok(None));
            } else {
                assert!(res.is_ok());
                let opt = res.unwrap();
                assert!(opt.is_some());
                let outputs = opt.unwrap();
                for ((a_secret, b_secret), output) in
                    a_secrets.iter().zip(b_secrets.iter()).zip(outputs.iter())
                {
                    assert_eq!(output, &a_secret.mul(b_secret));
                }
            }
        }
    }
}

struct Instance {
    h: Gej,
    witness: Witness,
    a: Gej,
    b: Gej,
    c: Gej,
}

fn instance() -> Instance {
    let h = Gej::new_random();
    let alpha = Scalar::new_random();
    let beta = Scalar::new_random();
    let rho = Scalar::new_random();
    let sigma = Scalar::new_random();
    let tau = Scalar::new_random();
    Instance {
        h,
        witness: Witness::new(alpha, beta, rho, sigma, tau),
        a: ped_commit(&h, &alpha, &rho),
        b: ped_commit(&h, &beta, &sigma),
        c: ped_commit(&h, &alpha.mul(&beta), &tau),
    }
}

fn random_nonce() -> Nonce {
    Nonce {
        d: Scalar::new_random(),
        s: Scalar::new_random(),
        x: Scalar::new_random(),
        s1: Scalar::new_random(),
        s2: Scalar::new_random(),
    }
}

#[test]
fn a_perturbed_statement_fails_verification() {
    let i = instance();
    let proof = prove(&i.witness, &i.a, &i.b, &i.c, &i.h);
    assert!(verify(&proof, &i.a, &i.b, &i.c, &i.h));
    let other = Gej::new_random();
    assert!(!verify(&proof, &other, &i.b, &i.c, &i.h));
    assert!(!verify(&proof, &i.a, &other, &i.c, &i.h));
    assert!(!verify(&proof, &i.a, &i.b, &other, &i.h));
    assert!(!verify(&proof, &i.a, &i.b, &i.c, &other));
    assert!(!verify(&proof, &i.b, &i.a, &i.c, &i.h));
}

#[test]
fn a_perturbed_proof_fails_verification() {
    let i = instance();
    let proof = prove(&i.witness, &i.a, &i.b, &i.c, &i.h);
    let other = Gej::new_random();
    let one = Scalar::one();

    let mut p = proof;
    p.message.m = other;
    assert!(!verify(&p, &i.a, &i.b, &i.c, &i.h));
    let mut p = proof;
    p.message.m1 = other;
    assert!(!verify(&p, &i.a, &i.b, &i.c, &i.h));
    let mut p = proof;
    p.message.m2 = other;
    assert!(!verify(&p, &i.a, &i.b, &i.c, &i.h));
    let mut p = proof;
    p.response.y = p.response.y.add(&one);
    assert!(!verify(&p, &i.a, &i.b, &i.c, &i.h));
    let mut p = proof;
    p.response.w = p.response.w.add(&one);
    assert!(!verify(&p, &i.a, &i.b, &i.c, &i.h));
    let mut p = proof;
    p.response.z = p.response.z.add(&one);
    assert!(!verify(&p, &i.a, &i.b, &i.c, &i.h));
    let mut p = proof;
    p.response.w1 = p.response.w1.add(&one);
    assert!(!verify(&p, &i.a, &i.b, &i.c, &i.h));
    let mut p = proof;
    p.response.w2 = p.response.w2.add(&one);
    assert!(!verify(&p, &i.a, &i.b, &i.c, &i.h));
}

#[test]
fn a_wrong_witness_gives_no_valid_proof() {
    let i = instance();
    let mut witness = i.witness;
    witness.tau = witness.tau.add(&Scalar::one());
    let proof = prove(&witness, &i.a, &i.b, &i.c, &i.h);
    assert!(!verify(&proof, &i.a, &i.b, &i.c, &i.h));
}

#[test]
fn the_response_follows_the_formulas() {
    let nonce = Nonce { d: small(1), s: small(2), x: small(3), s1: small(4), s2: small(5) };
    let witness = Witness::new(small(2), small(3), small(5), small(7), small(100));
    let response = response_for_challenge(&small(10), &nonce, &witness);
    assert_eq!(response.y, small(31));
    assert_eq!(response.w, small(72));
    assert_eq!(response.z, small(23));
    assert_eq!(response.w1, small(54));
    // 5 + 10 * (100 - 7 * 2)
    let mut expected = [0u8; 32];
    expected[30] = 0x03;
    expected[31] = 0x61;
    assert_eq!(response.w2, Scalar::from_be_bytes(expected).unwrap());
}

#[test]
fn the_message_commits_to_the_nonce() {
    let h = Gej::new_random();
    let b = Gej::new_random();
    let nonce = random_nonce();
    let message = message_for_nonce(&nonce, &b, &h);
    assert_eq!(message.m, ped_commit(&h, &nonce.d, &nonce.s));
    assert_eq!(message.m1, ped_commit(&h, &nonce.x, &nonce.s1));
    assert_eq!(message.m2, b.scalar_mul(&nonce.x).add(&h.scalar_mul(&nonce.s2)));

    let mut buf = vec![9u8; 101];
    message.put_bytes(&mut buf, 1);
    assert_eq!(buf[0], 9);
    assert_eq!(&buf[1..34], &message.m.to_bytes()[..]);
    assert_eq!(&buf[34..67], &message.m1.to_bytes()[..]);
    assert_eq!(&buf[67..100], &message.m2.to_bytes()[..]);
    assert_eq!(buf[100], 9);
}

#[test]
fn the_challenge_is_the_reduced_digest_of_the_transcript() {
    let i = instance();
    let nonce = random_nonce();
    let proof = prove_with_nonce(&nonce, &i.witness, &i.a, &i.b, &i.c, &i.h);
    assert_eq!(proof.message, message_for_nonce(&nonce, &i.b, &i.h));

    let mut transcript = Vec::with_capacity(198);
    transcript.extend_from_slice(&i.a.to_bytes());
    transcript.extend_from_slice(&i.b.to_bytes());
    transcript.extend_from_slice(&i.c.to_bytes());
    transcript.extend_from_slice(&proof.message.m.to_bytes());
    transcript.extend_from_slice(&proof.message.m1.to_bytes());
    transcript.extend_from_slice(&proof.message.m2.to_bytes());
    assert_eq!(transcript.len(), 198);
    let digest: [u8; 32] = Sha256::digest(&transcript).into();
    let challenge = Scalar::from_b32_reduced(&digest);

    assert_eq!(proof.response, response_for_challenge(&challenge, &nonce, &i.witness));
    assert!(verify_response(
        &proof.message,
        &challenge,
        &proof.response,
        &i.h,
        &i.a,
        &i.b,
        &i.c
    ));
    assert!(verify(&proof, &i.a, &i.b, &i.c, &i.h));
}

struct Run {
    h: Gej,
    a_shares: Vec<Vec<VShare>>,
    b_shares: Vec<Vec<VShare>>,
    z_shares: Vec<Vec<VShare>>,
    a_commitments: Vec<SharingCommitment>,
    b_commitments: Vec<SharingCommitment>,
    z_commitments: Vec<SharingCommitment>,
}

fn sharing_of(secret: &Scalar, n: usize, k: usize, b: usize, indices: &[Scalar], h: &Gej) -> (Vec<Vec<VShare>>, Vec<SharingCommitment>) {
    let mut by_slot = Vec::new();
    let mut commitments = Vec::new();
    for _ in 0..b {
        let (vshares, commitment) = vss::vshare_secret(h, indices, secret, k);
        assert_eq!(vshares.len(), n);
        by_slot.push(vshares);
        commitments.push(commitment);
    }
    (testutil::transpose(by_slot), commitments)
}

fn run(n: usize, k: usize, b: usize, alpha: &Scalar, beta: &Scalar) -> Run {
    let h = Gej::new_random();
    let indices = vss::random_scalars(n);
    let (a_shares, a_commitments) = sharing_of(alpha, n, k, b, &indices, &h);
    let (b_shares, b_commitments) = sharing_of(beta, n, k, b, &indices, &h);
    let (z_shares, z_commitments) = testutil::zero_sharing_batch(n, k, b, &indices, &h);
    Run { h, a_shares, b_shares, z_shares, a_commitments, b_commitments, z_commitments }
}

fn messages(r: &Run, player: usize) -> Vec<Message> {
    initial_message_batch(
        r.a_shares[player].clone(),
        r.b_shares[player].clone(),
        r.z_shares[player].clone(),
        &r.h,
    )
}

fn handle(r: &Run, state: &mut Vec<Vec<Share>>, batch: Vec<Message>) -> Result<Option<Vec<Scalar>>, MulOpenErr> {
    handle_message_batch(state, batch, &r.a_commitments, &r.b_commitments, &r.z_commitments, &r.h)
}

#[test]
fn mulopen_product() {
    let n = 10;
    let k = 3;
    let b = 2;
    let r = run(n, k, b, &small(7), &small(11));
    let mut state: Vec<Vec<Share>> = vec![Vec::new(); b];
    for player in 0..4 {
        assert_eq!(handle(&r, &mut state, messages(&r, player)), Ok(None));
        assert_eq!(state[0].len(), player + 1);
        assert_eq!(state[1].len(), player + 1);
    }
    let opened = handle(&r, &mut state, messages(&r, 4)).unwrap().unwrap();
    assert_eq!(opened, vec![small(77), small(77)]);
}

#[test]
fn messages_after_the_opening_are_ignored() {
    let r = run(6, 2, 2, &small(3), &small(5));
    let mut state: Vec<Vec<Share>> = vec![Vec::new(); 2];
    assert_eq!(handle(&r, &mut state, messages(&r, 0)), Ok(None));
    assert_eq!(handle(&r, &mut state, messages(&r, 1)), Ok(None));
    let opened = handle(&r, &mut state, messages(&r, 2)).unwrap().unwrap();
    assert_eq!(opened, vec![small(15), small(15)]);
    let full = state.clone();
    assert_eq!(full[0].len(), 3);
    assert_eq!(handle(&r, &mut state, messages(&r, 3)), Ok(None));
    assert_eq!(state, full);
    assert_eq!(handle(&r, &mut state, messages(&r, 0)), Ok(None));
    assert_eq!(state, full);
    // A late batch is still checked.
    let mut bad = messages(&r, 4);
    bad[0].vshare.share.value = Scalar::new_random();
    assert_eq!(handle(&r, &mut state, bad), Err(MulOpenErr::InvalidShares));
    assert_eq!(state, full);
}

#[test]
fn a_zero_sharing_of_the_degree_of_the_product_is_accepted() {
    // Factors with two coefficients, the zero sharing with three.
    let n = 6;
    let k = 2;
    let b = 2;
    let h = Gej::new_random();
    let indices = vss::random_scalars(n);
    let (a_shares, a_commitments) = sharing_of(&small(4), n, k, b, &indices, &h);
    let (b_shares, b_commitments) = sharing_of(&small(9), n, k, b, &indices, &h);
    let (z_shares, z_commitments) = testutil::zero_sharing_batch(n, 2 * k - 1, b, &indices, &h);
    assert_eq!(z_commitments[0].len(), 3);
    let mut state: Vec<Vec<Share>> = vec![Vec::new(); b];
    let mut last = None;
    for player in [5, 1, 3] {
        let batch = initial_message_batch(
            a_shares[player].clone(),
            b_shares[player].clone(),
            z_shares[player].clone(),
            &h,
        );
        last = handle_message_batch(
            &mut state,
            batch,
            &a_commitments,
            &b_commitments,
            &z_commitments,
            &h,
        )
        .unwrap();
    }
    assert_eq!(last, Some(vec![small(36), small(36)]));
}

#[test]
fn the_initial_message_follows_the_formulas() {
    let h = Gej::new_random();
    let index = small(4);
    let a = VShare { share: Share { index, value: small(3) }, decommitment: small(5) };
    let b = VShare { share: Share { index, value: small(7) }, decommitment: small(11) };
    let z = VShare { share: Share { index, value: small(13) }, decommitment: small(17) };
    let tau = small(19);
    let nonce = random_nonce();
    let message = initial_message_with(&a, &b, &z, &tau, &nonce, &h);
    assert_eq!(
        message.vshare,
        VShare { share: Share { index, value: small(34) }, decommitment: small(36) }
    );
    let ca = ped_commit(&h, &small(3), &small(5));
    let cb = ped_commit(&h, &small(7), &small(11));
    let cc = ped_commit(&h, &small(21), &tau);
    assert_eq!(message.commitment, cc);
    let witness = Witness::new(small(3), small(7), small(5), small(11), tau);
    assert_eq!(message.proof, prove_with_nonce(&nonce, &witness, &ca, &cb, &cc, &h));
    assert!(verify(&message.proof, &ca, &cb, &cc, &h));
}

#[test]
fn messages_with_differing_indices_are_refused() {
    let r = run(5, 2, 2, &small(2), &small(3));
    let mut state: Vec<Vec<Share>> = vec![Vec::new(); 2];
    let mut batch = messages(&r, 0);
    batch[1] = messages(&r, 1)[1];
    assert_eq!(handle(&r, &mut state, batch), Err(MulOpenErr::InconsistentShares));
    assert_eq!(state, vec![Vec::new(), Vec::new()]);
}

#[test]
fn a_share_that_does_not_match_its_commitment_is_refused() {
    let r = run(5, 2, 2, &small(2), &small(3));
    let mut state: Vec<Vec<Share>> = vec![Vec::new(); 2];
    assert_eq!(handle(&r, &mut state, messages(&r, 0)), Ok(None));
    let before = state.clone();
    let mut batch = messages(&r, 1);
    batch[0].vshare.share.value = batch[0].vshare.share.value.add(&Scalar::one());
    assert_eq!(handle(&r, &mut state, batch), Err(MulOpenErr::InvalidShares));
    assert_eq!(state, before);
    let mut batch = messages(&r, 1);
    batch[1].commitment = Gej::new_random();
    assert_eq!(handle(&r, &mut state, batch), Err(MulOpenErr::InvalidShares));
    assert_eq!(state, before);
}

#[test]
fn a_message_with_a_bad_proof_is_refused() {
    let r = run(5, 2, 2, &small(2), &small(3));
    let mut state: Vec<Vec<Share>> = vec![Vec::new(); 2];
    assert_eq!(handle(&r, &mut state, messages(&r, 0)), Ok(None));
    let before = state.clone();
    let mut batch = messages(&r, 1);
    batch[1].proof.response.w2 = batch[1].proof.response.w2.add(&Scalar::one());
    assert_eq!(handle(&r, &mut state, batch), Err(MulOpenErr::InvalidZKP));
    assert_eq!(state, before);
    // The state is as before: the open still completes.
    assert_eq!(handle(&r, &mut state, messages(&r, 1)), Ok(None));
    let opened = handle(&r, &mut state, messages(&r, 2)).unwrap().unwrap();
    assert_eq!(opened, vec![small(6), small(6)]);
}
