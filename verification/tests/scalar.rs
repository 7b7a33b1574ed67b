use mpc::scalar::Scalar;

fn small(v: u8) -> Scalar {
    let mut bytes = [0u8; 32];
    bytes[31] = v;
    Scalar::from_be_bytes(bytes).unwrap()
}

const ORDER: [u8; 32] = [
    0xFF, 0xFF, 0xFF, 0xFF, 0xFF, 0xFF, 0xFF, 0xFF, 0xFF, 0xFF, 0xFF, 0xFF, 0xFF, 0xFF, 0xFF, 0xFE,
    0xBA, 0xAE, 0xDC, 0xE6, 0xAF, 0x48, 0xA0, 0x3B, 0xBF, 0xD2, 0x5E, 0x8C, 0xD0, 0x36, 0x41, 0x41,
];

fn order_minus(v: u8) -> [u8; 32] {
    let mut bytes = ORDER;
    bytes[31] -= v;
    bytes
}

#[test]
fn zero_and_one_have_their_bytes() {
    assert_eq!(Scalar::zero().to_be_bytes(), [0u8; 32]);
    let mut one = [0u8; 32];
    one[31] = 1;
    assert_eq!(Scalar::one().to_be_bytes(), one);
    assert!(Scalar::zero().is_zero());
    assert!(!Scalar::one().is_zero());
}

#[test]
fn from_be_bytes_accepts_exactly_the_values_below_the_order() {
    assert!(Scalar::from_be_bytes(ORDER).is_none());
    assert!(Scalar::from_be_bytes([0xFF; 32]).is_none());
    let largest = Scalar::from_be_bytes(order_minus(1));
    assert!(largest.is_some());
    assert_eq!(largest.unwrap().to_be_bytes(), order_minus(1));
    assert!(Scalar::from_be_bytes([0u8; 32]).unwrap().is_zero());
}

#[test]
fn sums_are_taken_modulo_the_order() {
    assert_eq!(small(2).add(&small(3)), small(5));
    assert_eq!(Scalar::zero().add(&small(9)), small(9));
    assert_eq!(small(9).add(&Scalar::zero()), small(9));
    let largest = Scalar::from_be_bytes(order_minus(1)).unwrap();
    assert_eq!(largest.add(&Scalar::one()), Scalar::zero());
    assert_eq!(largest.add(&small(5)), small(4));
}

#[test]
fn products_are_taken_modulo_the_order() {
    assert_eq!(small(7).mul(&small(11)), small(77));
    assert_eq!(small(7).mul(&Scalar::zero()), Scalar::zero());
    assert_eq!(Scalar::zero().mul(&small(7)), Scalar::zero());
    let largest = Scalar::from_be_bytes(order_minus(1)).unwrap();
    assert_eq!(largest.mul(&largest), Scalar::one());
    assert_eq!(largest.mul(&small(2)), Scalar::from_be_bytes(order_minus(2)).unwrap());
}

#[test]
fn negation_and_difference() {
    assert_eq!(Scalar::zero().negate(), Scalar::zero());
    assert_eq!(Scalar::one().negate(), Scalar::from_be_bytes(order_minus(1)).unwrap());
    assert_eq!(small(5).sub(&small(3)), small(2));
    assert_eq!(small(3).sub(&small(5)), Scalar::from_be_bytes(order_minus(2)).unwrap());
    let r = Scalar::new_random();
    assert_eq!(r.add(&r.negate()), Scalar::zero());
}

#[test]
fn powers_follow_the_exponent_bytes() {
    let mut ten = [0u8; 32];
    ten[31] = 10;
    assert_eq!(small(2).pow(&ten), {
        let mut bytes = [0u8; 32];
        bytes[30] = 4;
        Scalar::from_be_bytes(bytes).unwrap()
    });
    assert_eq!(small(5).pow(&[0u8; 32]), Scalar::one());
    let mut big = [0u8; 32];
    big[30] = 1;
    let mut expected = Scalar::one();
    for _ in 0..256 {
        expected = expected.mul(&small(3));
    }
    assert_eq!(small(3).pow(&big), expected);
}

#[test]
fn inverse_times_the_scalar_is_one() {
    assert_eq!(Scalar::zero().inverse(), Scalar::zero());
    assert_eq!(Scalar::one().inverse(), Scalar::one());
    let half = small(2).inverse();
    assert_eq!(half.add(&half), Scalar::one());
    for _ in 0..5 {
        let r = Scalar::new_random();
        if !r.is_zero() {
            assert_eq!(r.mul(&r.inverse()), Scalar::one());
        }
    }
}

#[test]
fn reduction_of_32_bytes() {
    assert_eq!(Scalar::from_b32_reduced(&[0u8; 32]), Scalar::zero());
    assert_eq!(Scalar::from_b32_reduced(&order_minus(1)).to_be_bytes(), order_minus(1));
    assert_eq!(Scalar::from_b32_reduced(&ORDER), Scalar::zero());
    let mut above = ORDER;
    above[31] += 1;
    assert_eq!(Scalar::from_b32_reduced(&above), Scalar::one());
    let expected: [u8; 32] = [
        0x00, 0x00, 0x00, 0x00, 0x00, 0x00, 0x00, 0x00, 0x00, 0x00, 0x00, 0x00, 0x00, 0x00, 0x00,
        0x01, 0x45, 0x51, 0x23, 0x19, 0x50, 0xB7, 0x5F, 0xC4, 0x40, 0x2D, 0xA1, 0x73, 0x2F, 0xC9,
        0xBE, 0xBE,
    ];
    assert_eq!(Scalar::from_b32_reduced(&[0xFF; 32]).to_be_bytes(), expected);
}

#[test]
fn random_scalars_differ() {
    let a = Scalar::new_random();
    let b = Scalar::new_random();
    assert!(!a.eq(&b));
    assert!(a.eq(&a));
    assert_ne!(a, b);
}

#[test]
fn random_draws_are_below_the_order() {
    for _ in 0..20 {
        let r = Scalar::new_random();
        assert_eq!(Scalar::from_be_bytes(r.to_be_bytes()), Some(r));
        let c = mpc::mulopen::zkp::new_challenge();
        assert_eq!(Scalar::from_be_bytes(c.to_be_bytes()), Some(c));
    }
}
