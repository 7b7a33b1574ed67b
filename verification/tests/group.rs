use mpc::group::Gej;
use mpc::scalar::Scalar;

fn small(v: u8) -> Scalar {
    let mut bytes = [0u8; 32];
    bytes[31] = v;
    Scalar::from_be_bytes(bytes).unwrap()
}

const GENERATOR: [u8; 33] = [
    0x02, 0x79, 0xBE, 0x66, 0x7E, 0xF9, 0xDC, 0xBB, 0xAC, 0x55, 0xA0, 0x62, 0x95, 0xCE, 0x87, 0x0B,
    0x07, 0x02, 0x9B, 0xFC, 0xDB, 0x2D, 0xCE, 0x28, 0xD9, 0x59, 0xF2, 0x81, 0x5B, 0x16, 0xF8, 0x17,
    0x98,
];

const TWICE_GENERATOR: [u8; 33] = [
    0x02, 0xC6, 0x04, 0x7F, 0x94, 0x41, 0xED, 0x7D, 0x6D, 0x30, 0x45, 0x40, 0x6E, 0x95, 0xC0, 0x7C,
    0xD8, 0x5C, 0x77, 0x8E, 0x4B, 0x8C, 0xEF, 0x3C, 0xA7, 0xAB, 0xAC, 0x09, 0xB9, 0x5C, 0x70, 0x9E,
    0xE5,
];

#[test]
fn the_generator_and_its_double_have_their_known_encodings() {
    assert_eq!(Gej::scalar_base_mul(&Scalar::one()).to_bytes(), GENERATOR);
    assert_eq!(Gej::scalar_base_mul(&small(2)).to_bytes(), TWICE_GENERATOR);
    let g = Gej::from_bytes(GENERATOR).unwrap();
    assert_eq!(g.add(&g).to_bytes(), TWICE_GENERATOR);
    assert_eq!(g.scalar_mul(&small(2)).to_bytes(), TWICE_GENERATOR);
}

#[test]
fn the_identity_is_neutral() {
    let inf = Gej::infinity();
    assert!(inf.is_infinity());
    assert_eq!(inf.to_bytes(), [0u8; 33]);
    let p = Gej::new_random();
    assert_eq!(p.add(&inf), p);
    assert_eq!(inf.add(&p), p);
    assert_eq!(inf.add(&inf), inf);
    assert_eq!(p.scalar_mul(&Scalar::zero()), inf);
    assert_eq!(inf.scalar_mul(&small(5)), inf);
    assert_eq!(Gej::scalar_base_mul(&Scalar::zero()), inf);
}

#[test]
fn a_point_and_its_negative_sum_to_the_identity() {
    let s = Scalar::new_random();
    let p = Gej::scalar_base_mul(&s);
    let q = Gej::scalar_base_mul(&s.negate());
    assert!(p.add(&q).is_infinity());
}

#[test]
fn multiples_add_up() {
    let g = Gej::scalar_base_mul(&Scalar::one());
    let three = g.add(&g).add(&g);
    assert_eq!(three, g.scalar_mul(&small(3)));
    assert_eq!(three, Gej::scalar_base_mul(&small(3)));
    let a = Scalar::new_random();
    let b = Scalar::new_random();
    let left = Gej::scalar_base_mul(&a).add(&Gej::scalar_base_mul(&b));
    assert_eq!(left, Gej::scalar_base_mul(&a.add(&b)));
    let h = Gej::new_random();
    assert_eq!(h.scalar_mul(&a).scalar_mul(&b), h.scalar_mul(&a.mul(&b)));
}

#[test]
fn from_bytes_accepts_points_and_the_identity_only() {
    assert!(Gej::from_bytes([0u8; 33]).unwrap().is_infinity());
    assert!(Gej::from_bytes(GENERATOR).is_some());
    assert!(Gej::from_bytes([0xFF; 33]).is_none());
    let mut bad = GENERATOR;
    bad[0] = 0x05;
    assert!(Gej::from_bytes(bad).is_none());
    let p = Gej::new_random();
    assert_eq!(Gej::from_bytes(p.to_bytes()), Some(p));
}

#[test]
fn put_bytes_writes_at_the_offset() {
    let g = Gej::from_bytes(GENERATOR).unwrap();
    let mut buf = vec![7u8; 40];
    g.put_bytes(&mut buf, 5);
    assert_eq!(&buf[..5], &[7u8; 5]);
    assert_eq!(&buf[5..38], &GENERATOR[..]);
    assert_eq!(&buf[38..], &[7u8; 2]);
    assert!(g.eq(&g));
    assert!(!g.eq(&Gej::infinity()));
}

#[test]
fn random_elements_are_points_of_the_curve() {
    for _ in 0..10 {
        let p = Gej::new_random();
        assert!(!p.is_infinity());
        assert_eq!(Gej::from_bytes(p.to_bytes()), Some(p));
        assert!(p.to_bytes()[0] == 0x02 || p.to_bytes()[0] == 0x03);
    }
}
