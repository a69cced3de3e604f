use ark_bn254::{Fr as ArkFr, G1Projective};
use ark_ec::PrimeGroup;
use ark_ff::{AdditiveGroup, BigInt, PrimeField, UniformRand};
use ark_std::test_rng;
use bn254_msm::curve::{
    multi_scalar_mul, point_scalar_mul, point_scalar_mul_gen, CurvePoint, DecodeError, FrBits,
};
use bn254_msm::scalar::Fr;

fn fr(x: ArkFr) -> Fr {
    Fr::from_limbs(x.into_bigint().0).unwrap()
}

fn ark(x: &Fr) -> ArkFr {
    ArkFr::from_bigint(BigInt(x.limbs())).unwrap()
}

fn point(p: G1Projective) -> CurvePoint {
    CurvePoint::from_coordinates(p.x.into_bigint().0, p.y.into_bigint().0, p.z.into_bigint().0)
        .unwrap()
}

const FR_MODULUS: [u64; 4] = [
    0x43e1f593f0000001,
    0x2833e84879b97091,
    0xb85045b68181585d,
    0x30644e72e131a029,
];

const FQ_MODULUS: [u64; 4] = [
    0x3c208c16d87cfd47,
    0x97816a916871ca8d,
    0xb85045b68181585d,
    0x30644e72e131a029,
];

#[test]
// Compares result of msm with one computed directly from point add operation
fn test_validate_psm_with_point_add() {
    let mut rng = test_rng();
    let k1 = ArkFr::rand(&mut rng);
    let k2 = ArkFr::rand(&mut rng);

    let d = point(G1Projective::generator());
    let y1 = point_scalar_mul(fr(k1), d);
    let y2 = point_scalar_mul(fr(k2), d);
    let y3 = point_scalar_mul(fr(k1 + k2), d);

    let y12 = CurvePoint::add(y1, y2);
    let is_iden = y12.eq(&y3);
    assert!(is_iden);
}

#[test]
fn test_msm_2() {
    let mut rng = test_rng();
    let n = 10_000;
    let scalars: Vec<Fr> = (0..n).map(|_| fr(ArkFr::rand(&mut rng))).collect();
    let points: Vec<CurvePoint> = (0..n).map(|_| point(G1Projective::generator())).collect();
    let res = multi_scalar_mul(&scalars, &points);
    let mut total = ArkFr::ZERO;
    for scalar in &scalars {
        total += ark(scalar);
    }
    let total_msm = point_scalar_mul(fr(total), points[0]);
    assert_eq!(total_msm, res);
}

#[test]
// Verifies that a CurvePoint is recovered after serialize-then-deserialize
fn test_curve_point_to_bytes() {
    let point = point(G1Projective::rand(&mut test_rng()));
    let bytes = point.to_bytes();
    let decoded = CurvePoint::from_bytes(&bytes);
    let checked = decoded.checked();
    assert_eq!(decoded, point);
    assert!(checked);
}

#[test]
fn test_from_fr_writes_bits_least_significant_first() {
    let five = Fr::from_limbs([5, 0, 0, 0]).unwrap();
    let bits = FrBits::from_fr(five);
    assert!(bits.0[0]);
    assert!(!bits.0[1]);
    assert!(bits.0[2]);
    assert!(bits.0[3..].iter().all(|b| !*b));

    let high = Fr::from_limbs([0, 0, 0, 1 << 61]).unwrap();
    let bits = FrBits::from_fr(high);
    assert!(bits.0[253]);
    assert_eq!(bits.0.iter().filter(|b| **b).count(), 1);
}

#[test]
fn test_fr_bits_round_trip() {
    let mut rng = test_rng();
    for _ in 0..50 {
        let x = fr(ArkFr::rand(&mut rng));
        let bits = FrBits::from_fr(x);
        let (back, valid) = bits.to_fr();
        assert!(valid);
        assert_eq!(back, x);
        assert_eq!(FrBits::from_fr(back).0, bits.0);
    }
    let max = fr(-ArkFr::from(1u64));
    let (back, valid) = FrBits::from_fr(max).to_fr();
    assert!(valid);
    assert_eq!(back, max);
}

#[test]
fn test_to_fr_rejects_values_from_the_modulus_up() {
    let all_ones = FrBits([true; 254]);
    let (value, valid) = all_ones.to_fr();
    assert!(!valid);
    assert_eq!(value, Fr::zero());

    let mut modulus_bits = [false; 254];
    for i in 0..254 {
        modulus_bits[i] = (FR_MODULUS[i / 64] >> (i % 64)) & 1 == 1;
    }
    let (value, valid) = FrBits(modulus_bits).to_fr();
    assert!(!valid);
    assert_eq!(value, Fr::zero());

    modulus_bits[0] = false;
    let (value, valid) = FrBits(modulus_bits).to_fr();
    assert!(valid);
    assert_eq!(ark(&value), -ArkFr::from(1u64));
}

#[test]
fn test_fr_from_limbs_rejects_the_modulus() {
    assert!(Fr::from_limbs(FR_MODULUS).is_none());
    let mut below = FR_MODULUS;
    below[0] -= 1;
    assert!(Fr::from_limbs(below).is_some());
    assert_eq!(Fr::zero().limbs(), [0, 0, 0, 0]);
}

#[test]
fn test_packed_bytes_exact() {
    let mut bits = [false; 254];
    bits[0] = true;
    bits[9] = true;
    bits[253] = true;
    let bytes = FrBits(bits).to_packed_bytes();
    let mut expected = [0u8; 32];
    expected[0] = 1;
    expected[1] = 2;
    expected[31] = 0x20;
    assert_eq!(bytes, expected);
    assert_eq!(FrBits([true; 254]).to_packed_bytes()[31], 0x3f);
}

#[test]
fn test_packed_bytes_round_trip() {
    let mut rng = test_rng();
    for _ in 0..20 {
        let bits = FrBits::from_fr(fr(ArkFr::rand(&mut rng)));
        let bytes = bits.to_packed_bytes();
        let back = FrBits::from_packed_bytes(&bytes).unwrap();
        assert_eq!(back.0, bits.0);
        assert_eq!(back.to_packed_bytes(), bytes);
    }
    // the two top bits of the last byte are not read
    let mut bytes = [0xffu8; 32];
    let bits = FrBits::from_packed_bytes(&bytes).unwrap();
    assert!(bits.0.iter().all(|b| *b));
    bytes[31] = 0x3f;
    assert_eq!(bits.to_packed_bytes(), bytes);
}

#[test]
fn test_from_packed_bytes_wrong_length() {
    assert_eq!(FrBits::from_packed_bytes(&[0u8; 31]).unwrap_err(), DecodeError::WrongLength);
    assert_eq!(FrBits::from_packed_bytes(&[0u8; 33]).unwrap_err(), DecodeError::WrongLength);
    assert!(FrBits::from_packed_bytes(&[]).is_err());
}

#[test]
fn test_generator_and_zero_coordinates() {
    let g = CurvePoint::generator();
    assert_eq!(g.coordinates(), ([1, 0, 0, 0], [2, 0, 0, 0], [1, 0, 0, 0]));
    assert!(g.checked());
    assert_eq!(g, point(G1Projective::generator()));
    let zero = CurvePoint::zero();
    assert_eq!(zero.coordinates(), ([1, 0, 0, 0], [1, 0, 0, 0], [0, 0, 0, 0]));
    assert!(zero.checked());
    assert_ne!(zero, g);
}

#[test]
fn test_points_compare_projectively() {
    let g = G1Projective::generator();
    let l = ark_bn254::Fq::from(7u64);
    let scaled = G1Projective::new_unchecked(g.x * l * l, g.y * l * l * l, g.z * l);
    let p = point(scaled);
    assert_ne!(p.coordinates(), CurvePoint::generator().coordinates());
    assert_eq!(p, CurvePoint::generator());
    let other = point(G1Projective::new_unchecked(g.x * l, g.y * l * l * l, g.z * l));
    assert_ne!(other, CurvePoint::generator());
}

#[test]
fn test_checked_rejects_points_off_the_curve() {
    let off = CurvePoint::from_coordinates([1, 0, 0, 0], [1, 0, 0, 0], [1, 0, 0, 0]).unwrap();
    assert!(!off.checked());
    let infinity = CurvePoint::from_coordinates([5, 0, 0, 0], [9, 0, 0, 0], [0, 0, 0, 0]).unwrap();
    assert!(infinity.checked());
}

#[test]
fn test_from_coordinates_rejects_noncanonical() {
    assert!(CurvePoint::from_coordinates(FQ_MODULUS, [0; 4], [0; 4]).is_none());
    assert!(CurvePoint::from_coordinates([0; 4], FQ_MODULUS, [0; 4]).is_none());
    assert!(CurvePoint::from_coordinates([0; 4], [0; 4], FQ_MODULUS).is_none());
}

#[test]
fn test_to_bytes_layout() {
    let bytes = CurvePoint::generator().to_bytes();
    let mut expected = [0u8; 96];
    expected[0] = 1;
    expected[32] = 2;
    expected[64] = 1;
    assert_eq!(bytes, expected);
    let ser = CurvePoint::generator().to_serialized_bytes();
    let mut expected = [0u8; 96];
    expected[31] = 1;
    expected[63] = 2;
    expected[95] = 1;
    assert_eq!(ser, expected);
}

#[test]
fn test_from_bytes_reduces_modulo_q() {
    let mut bytes = [0u8; 96];
    for k in 0..4 {
        bytes[8 * k..8 * k + 8].copy_from_slice(&FQ_MODULUS[k].to_le_bytes());
    }
    bytes[32] = 2;
    bytes[64] = 1;
    let p = CurvePoint::from_bytes(&bytes);
    assert_eq!(p.coordinates(), ([0, 0, 0, 0], [2, 0, 0, 0], [1, 0, 0, 0]));
    assert_ne!(p.to_bytes(), bytes);
    let mut q_plus_one = FQ_MODULUS;
    q_plus_one[0] += 1;
    for k in 0..4 {
        bytes[8 * k..8 * k + 8].copy_from_slice(&q_plus_one[k].to_le_bytes());
    }
    assert_eq!(CurvePoint::from_bytes(&bytes).coordinates().0, [1, 0, 0, 0]);
}

#[test]
fn test_serialized_bytes_round_trip() {
    let p = point(G1Projective::rand(&mut test_rng()));
    let bytes = p.to_serialized_bytes();
    let back = CurvePoint::from_serialized_bytes(&bytes).unwrap();
    assert_eq!(back.coordinates(), p.coordinates());
    assert_eq!(back, p);
    let mut big_endian_q = [0u8; 96];
    for k in 0..4 {
        big_endian_q[32 - 8 * (k + 1)..32 - 8 * k].copy_from_slice(&FQ_MODULUS[k].to_be_bytes());
    }
    big_endian_q[95] = 1;
    let reduced = CurvePoint::from_serialized_bytes(&big_endian_q).unwrap();
    assert_eq!(reduced.coordinates(), ([0; 4], [0; 4], [1, 0, 0, 0]));
}

#[test]
fn test_from_serialized_bytes_wrong_length() {
    assert_eq!(
        CurvePoint::from_serialized_bytes(&[0u8; 95]).unwrap_err(),
        DecodeError::WrongLength
    );
    assert!(CurvePoint::from_serialized_bytes(&[0u8; 97]).is_err());
}

#[test]
fn test_scalar_multiplication_by_small_scalars() {
    let g = CurvePoint::generator();
    let two = Fr::from_limbs([2, 0, 0, 0]).unwrap();
    let doubled = point_scalar_mul(two, g);
    assert_ne!(doubled, g);
    assert_eq!(doubled, CurvePoint::add(g, g));
    assert_eq!(doubled, point(G1Projective::generator().double()));
    assert_eq!(point_scalar_mul_gen(two), doubled);
    assert_eq!(point_scalar_mul(Fr::zero(), g), CurvePoint::zero());
    let one = Fr::from_limbs([1, 0, 0, 0]).unwrap();
    assert_eq!(point_scalar_mul(one, g), g);
}

#[test]
fn test_add_matches_the_curve_library() {
    let mut rng = test_rng();
    let a = G1Projective::rand(&mut rng);
    let b = G1Projective::rand(&mut rng);
    let sum = CurvePoint::add(point(a), point(b));
    assert_eq!(sum, point(a + b));
    assert_ne!(sum, point(a));
    assert_eq!(CurvePoint::add(point(a), CurvePoint::zero()), point(a));
}

#[test]
fn test_msm_small_and_empty() {
    assert_eq!(multi_scalar_mul(&[], &[]), CurvePoint::zero());
    let g = CurvePoint::generator();
    let two = Fr::from_limbs([2, 0, 0, 0]).unwrap();
    let three = Fr::from_limbs([3, 0, 0, 0]).unwrap();
    let five = Fr::from_limbs([5, 0, 0, 0]).unwrap();
    let res = multi_scalar_mul(&[two, three], &[g, g]);
    assert_eq!(res, point_scalar_mul_gen(five));
    assert_ne!(res, g);
}
