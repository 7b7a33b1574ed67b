use mpc::reed_solomon::{
    count_agreements, decode_with_hint, decode_with_precompute, first_places, Precompute,
};
use mpc::scalar::Scalar;
use mpc::sss::{poly_eval_scalars, Share};
use mpc::vss::random_scalars;

fn small(v: u8) -> Scalar {
    let mut bytes = [0u8; 32];
    bytes[31] = v;
    Scalar::from_be_bytes(bytes).unwrap()
}

fn points(poly: &[Scalar], indices: &[Scalar]) -> Vec<Share> {
    indices
        .iter()
        .map(|index| Share { index: *index, value: poly_eval_scalars(poly, index) })
        .collect()
}

#[test]
fn a_code_word_decodes_to_its_polynomial() {
    // 5 + x + 2x^2 at 1..=7.
    let poly = vec![small(5), small(1), small(2)];
    let indices: Vec<Scalar> = (1..=7).map(small).collect();
    let shares = points(&poly, &indices);
    assert_eq!(shares[1].value, small(15));
    let precompute = Precompute::new(&indices);
    assert_eq!(precompute.len(), 7);
    assert_eq!(decode_with_precompute(&precompute, &shares, 3), Some(poly));
}

#[test]
fn errors_within_the_bound_are_corrected() {
    let poly = vec![small(5), small(1), small(2)];
    let indices: Vec<Scalar> = (1..=7).map(small).collect();
    let precompute = Precompute::new(&indices);
    let mut shares = points(&poly, &indices);
    shares[0].value = small(200);
    assert_eq!(decode_with_precompute(&precompute, &shares, 3), Some(poly.clone()));
    shares[4].value = Scalar::zero();
    assert_eq!(decode_with_precompute(&precompute, &shares, 3), Some(poly.clone()));
    for _ in 0..5 {
        let indices = random_scalars(10);
        let poly = random_scalars(4);
        let precompute = Precompute::new(&indices);
        let mut shares = points(&poly, &indices);
        shares[2].value = Scalar::new_random();
        shares[7].value = Scalar::new_random();
        shares[9].value = Scalar::zero();
        assert_eq!(decode_with_precompute(&precompute, &shares, 4), Some(poly));
    }
}

#[test]
fn errors_beyond_the_bound_are_not_decoded() {
    let indices = random_scalars(7);
    let poly = random_scalars(3);
    let precompute = Precompute::new(&indices);
    let mut shares = points(&poly, &indices);
    shares[0].value = Scalar::new_random();
    shares[3].value = Scalar::new_random();
    shares[5].value = Scalar::new_random();
    assert_eq!(decode_with_precompute(&precompute, &shares, 3), None);
}

#[test]
fn without_redundancy_the_points_are_interpolated() {
    let indices = vec![small(1), small(2), small(3)];
    let values = [small(8), small(15), small(26)];
    let shares: Vec<Share> = indices
        .iter()
        .zip(values.iter())
        .map(|(index, value)| Share { index: *index, value: *value })
        .collect();
    let precompute = Precompute::new(&indices);
    assert_eq!(
        decode_with_precompute(&precompute, &shares, 3),
        Some(vec![small(5), small(1), small(2)])
    );
    // One point of redundancy detects an error but cannot correct it.
    let four = vec![small(1), small(2), small(3), small(4)];
    let precompute = Precompute::new(&four);
    let mut shares = points(&[small(5), small(1), small(2)], &four);
    assert_eq!(
        decode_with_precompute(&precompute, &shares, 3),
        Some(vec![small(5), small(1), small(2)])
    );
    shares[3].value = small(0);
    assert_eq!(decode_with_precompute(&precompute, &shares, 3), None);
}

#[test]
fn ill_shaped_inputs_are_not_decoded() {
    let indices = vec![small(1), small(2), small(3)];
    let precompute = Precompute::new(&indices);
    let shares = points(&[small(4)], &indices);
    assert_eq!(decode_with_precompute(&precompute, &shares, 1), Some(vec![small(4)]));
    assert_eq!(decode_with_precompute(&precompute, &shares, 0), None);
    assert_eq!(decode_with_precompute(&precompute, &shares, 4), None);
    assert_eq!(decode_with_precompute(&precompute, &shares[..2], 1), None);
    let empty = Precompute::new(&[]);
    assert_eq!(decode_with_precompute(&empty, &[], 1), None);
}

#[test]
fn agreements_are_counted() {
    let poly = vec![small(5), small(1), small(2)];
    let xs = vec![small(1), small(2), small(3), small(4)];
    let ys = vec![small(8), small(16), small(26), small(0)];
    assert_eq!(count_agreements(&poly, &xs, &ys), 2);
    assert_eq!(count_agreements(&poly, &[], &[]), 0);
    assert_eq!(count_agreements(&[], &xs, &[Scalar::zero(); 4]), 4);
}

#[test]
fn hinted_places_are_tried_first_and_need_not_be_right() {
    assert_eq!(first_places(3), vec![0, 1, 2]);
    assert_eq!(first_places(0), Vec::<usize>::new());
    let poly = vec![small(5), small(1), small(2)];
    let indices: Vec<Scalar> = (1..=7).map(small).collect();
    let precompute = Precompute::new(&indices);
    let mut shares = points(&poly, &indices);
    shares[0].value = small(99);
    shares[1].value = small(98);
    // The hint names right points.
    assert_eq!(decode_with_hint(&precompute, &shares, 3, &[2, 4, 6]), Some(poly.clone()));
    // The hint names a wrong point, too few places, or a place that is not there.
    assert_eq!(decode_with_hint(&precompute, &shares, 3, &[0, 4, 6]), Some(poly.clone()));
    assert_eq!(decode_with_hint(&precompute, &shares, 3, &[4, 6]), Some(poly.clone()));
    assert_eq!(decode_with_hint(&precompute, &shares, 3, &[4, 6, 7]), Some(poly.clone()));
    assert_eq!(decode_with_hint(&precompute, &shares, 3, &[]), Some(poly.clone()));
    // A third wrong point is one too many, whatever the hint.
    shares[2].value = small(97);
    assert_eq!(decode_with_hint(&precompute, &shares, 3, &[3, 4, 6]), None);
    assert_eq!(decode_with_hint(&precompute, &shares, 0, &[]), None);
}
