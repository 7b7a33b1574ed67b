use mpc::group::Gej;
use mpc::scalar::Scalar;
use mpc::sss::{self, Share};
use mpc::vss::{self, SharingCommitment, VShare};

fn small(v: u8) -> Scalar {
    let mut bytes = [0u8; 32];
    bytes[31] = v;
    Scalar::from_be_bytes(bytes).unwrap()
}

#[test]
fn polynomial_evaluation_by_horner() {
    // 3 + 2x + x^2 at 5 is 38.
    let coeffs = vec![small(3), small(2), small(1)];
    assert_eq!(sss::poly_eval_scalars(&coeffs, &small(5)), small(38));
    assert_eq!(sss::poly_eval_scalars(&coeffs, &Scalar::zero()), small(3));
    assert_eq!(sss::poly_eval_scalars(&[], &small(5)), Scalar::zero());
}

#[test]
fn interpolation_recovers_the_constant_term() {
    // 7 + 3x at 1 and 2.
    let shares = vec![
        Share { index: small(1), value: small(10) },
        Share { index: small(2), value: small(13) },
    ];
    assert_eq!(sss::interpolate_shares_at_zero(&shares), small(7));
    // 5 + x + 2x^2 at 1, 2, 3.
    let indices = vec![small(1), small(2), small(3)];
    let values = vec![small(8), small(15), small(26)];
    assert_eq!(sss::interpolate_scalars_at_zero(&indices, &values), small(5));
    assert_eq!(sss::interpolate_scalars_at_zero(&[], &[]), Scalar::zero());
}

#[test]
fn pedersen_commitment_is_the_sum_of_both_powers() {
    let h = Gej::new_random();
    let v = Scalar::new_random();
    let r = Scalar::new_random();
    let expected = Gej::scalar_base_mul(&v).add(&h.scalar_mul(&r));
    assert_eq!(vss::ped_commit(&h, &v, &r), expected);
    assert_eq!(vss::ped_commit(&h, &Scalar::zero(), &Scalar::zero()), Gej::infinity());
}

#[test]
fn dealt_shares_are_valid_and_reconstruct() {
    let h = Gej::new_random();
    let indices = vss::random_scalars(6);
    let secret = small(42);
    let decommitment = small(17);
    let (vshares, commitment) =
        vss::vshare_secret_and_decommitment(&h, &indices, &secret, &decommitment, 3);
    assert_eq!(vshares.len(), 6);
    assert_eq!(commitment.len(), 3);
    assert_eq!(commitment.get(0), vss::ped_commit(&h, &secret, &decommitment));
    for (vshare, index) in vshares.iter().zip(indices.iter()) {
        assert_eq!(&vshare.share.index, index);
        assert!(vss::vshare_is_valid(vshare, &commitment, &h));
    }
    let (s, d) = vss::interpolate_shares_at_zero(&vshares[..3]);
    assert_eq!(s, secret);
    assert_eq!(d, decommitment);
    let (s, d) = vss::interpolate_shares_at_zero(&vshares[2..]);
    assert_eq!(s, secret);
    assert_eq!(d, decommitment);
}

#[test]
fn a_tampered_share_is_invalid() {
    let h = Gej::new_random();
    let indices = vss::random_scalars(4);
    let (vshares, commitment) = vss::vshare_secret(&h, &indices, &small(9), 2);
    let mut bad = vshares[1];
    bad.share.value = bad.share.value.add(&Scalar::one());
    assert!(!vss::vshare_is_valid(&bad, &commitment, &h));
    let mut bad = vshares[1];
    bad.decommitment = bad.decommitment.add(&Scalar::one());
    assert!(!vss::vshare_is_valid(&bad, &commitment, &h));
    let mut bad = vshares[1];
    bad.share.index = indices[2];
    assert!(!vss::vshare_is_valid(&bad, &commitment, &h));
}

#[test]
fn given_polynomials_are_dealt_exactly() {
    let h = Gej::new_random();
    let indices = vec![small(1), small(2)];
    let a = vec![small(3), small(2)];
    let b = vec![small(1), small(4)];
    let (vshares, commitment) = vss::vshare_polynomials(&h, &indices, &a, &b);
    assert_eq!(
        vshares,
        vec![
            VShare { share: Share { index: small(1), value: small(5) }, decommitment: small(5) },
            VShare { share: Share { index: small(2), value: small(7) }, decommitment: small(9) },
        ]
    );
    assert_eq!(commitment.get(0), vss::ped_commit(&h, &small(3), &small(1)));
    assert_eq!(commitment.get(1), vss::ped_commit(&h, &small(2), &small(4)));
}

#[test]
fn shares_and_commitments_add_and_scale() {
    let mut v = VShare { share: Share { index: small(1), value: small(2) }, decommitment: small(3) };
    let w = VShare { share: Share { index: small(9), value: small(5) }, decommitment: small(7) };
    v.add_assign_mut(&w);
    assert_eq!(
        v,
        VShare { share: Share { index: small(1), value: small(7) }, decommitment: small(10) }
    );
    v.scale_assign_mut(&small(3));
    assert_eq!(
        v,
        VShare { share: Share { index: small(1), value: small(21) }, decommitment: small(30) }
    );

    let p = Gej::new_random();
    let q = Gej::new_random();
    let mut c = SharingCommitment::new_from_vec(vec![p, q]);
    let d = SharingCommitment::new_from_vec(vec![q]);
    c.add_assign_mut(&d);
    assert_eq!(c, SharingCommitment::new_from_vec(vec![p.add(&q), q]));
    c.scale_assign_mut(&small(2));
    assert_eq!(
        c,
        SharingCommitment::new_from_vec(vec![p.add(&q).scalar_mul(&small(2)), q.add(&q)])
    );
    let mut e = SharingCommitment::with_capacity(2);
    assert_eq!(e.len(), 0);
    e.push(p);
    assert_eq!(e.len(), 1);
    assert_eq!(e.get(0), p);
    assert_eq!(e.clone(), e);
    let zeros = SharingCommitment::default_with_len(3);
    assert_eq!(zeros.len(), 3);
    assert!(zeros.get(2).is_infinity());
}

#[test]
fn evaluation_in_the_exponent_by_horner() {
    let p = Gej::new_random();
    let q = Gej::new_random();
    let c = SharingCommitment::new_from_vec(vec![p, q]);
    let x = small(3);
    assert_eq!(vss::poly_eval_gej_slice_in_exponent(&c, &x), q.scalar_mul(&x).add(&p));
    let empty = SharingCommitment::with_capacity(0);
    assert!(vss::poly_eval_gej_slice_in_exponent(&empty, &x).is_infinity());
}

#[test]
fn interpolation_recovers_all_coefficients() {
    // 5 + x + 2x^2 at 1, 2, 3.
    let xs = vec![small(1), small(2), small(3)];
    let ys = vec![small(8), small(15), small(26)];
    assert_eq!(sss::interpolate_polynomial(&xs, &ys), vec![small(5), small(1), small(2)]);
    // A constant through one point, and a line through two.
    assert_eq!(sss::interpolate_polynomial(&[small(9)], &[small(4)]), vec![small(4)]);
    assert_eq!(
        sss::interpolate_polynomial(&[small(2), small(5)], &[small(7), small(16)]),
        vec![small(1), small(3)]
    );
    assert_eq!(sss::interpolate_polynomial(&[], &[]), vec![]);
    let poly = vss::random_scalars(5);
    let xs = vss::random_scalars(5);
    let ys: Vec<Scalar> = xs.iter().map(|x| sss::poly_eval_scalars(&poly, x)).collect();
    assert_eq!(sss::interpolate_polynomial(&xs, &ys), poly);
    assert_eq!(sss::zeros(2), vec![Scalar::zero(), Scalar::zero()]);
}

#[test]
fn distinct_indices_have_invertible_differences() {
    let indices = vss::random_scalars(6);
    assert!(sss::differences_are_invertible(&indices));
    assert!(sss::differences_are_invertible(&[small(1), small(2), small(3)]));
    assert!(sss::differences_are_invertible(&[small(7)]));
    assert!(sss::differences_are_invertible(&[]));
    assert!(!sss::differences_are_invertible(&[small(1), small(2), small(1)]));
    assert!(!sss::differences_are_invertible(&[Scalar::zero(), Scalar::zero()]));
}
