use ark_bn254::Fr as ArkFr;
use ark_ff::{BigInt, PrimeField};
use bn254_msm::scalar::Fr;
use bn254_msm::utils::{
    bigint4_to_integer, check_reduced_basis, decompose_reduced_basis, decomposition_basis,
    integer_to_bigint4, msb_bit, Decomp, Integer,
};

fn fr_from_bigint(b: BigInt<4>) -> Fr {
    Fr::from_limbs(ArkFr::from(b).into_bigint().0).unwrap()
}

fn ark(x: &Fr) -> ArkFr {
    ArkFr::from_bigint(BigInt(x.limbs())).unwrap()
}

fn integer(v: i64) -> Integer {
    Integer { negative: v < 0, digits: vec![v.unsigned_abs()] }
}

fn signed(d: &Decomp) -> ArkFr {
    if d.1 {
        -ark(&d.0)
    } else {
        ark(&d.0)
    }
}

#[test]
fn test_msb_bit() {
    let x = 0b1011u64; // 11 in decimal
    let fr = fr_from_bigint(BigInt::new([x, 0, 0, x]));

    // msb
    assert_eq!(msb_bit(&fr, 252), 1);
    assert_eq!(msb_bit(&fr, 253), 0);
    assert_eq!(msb_bit(&fr, 254), 1);
    assert_eq!(msb_bit(&fr, 255), 1);
    assert_eq!(msb_bit(&fr, 60), 1);
    assert_eq!(msb_bit(&fr, 61), 0);
    assert_eq!(msb_bit(&fr, 62), 1);
    assert_eq!(msb_bit(&fr, 63), 1);
    for i in 64..252 {
        assert_eq!(msb_bit(&fr, i), 0);
    }
    for i in 0..60 {
        assert_eq!(msb_bit(&fr, i), 0);
    }
}

#[test]
fn test_msb_bit_top_bits_clear() {
    let max = Fr::from_limbs((-ArkFr::from(1u64)).into_bigint().0).unwrap();
    assert_eq!(msb_bit(&max, 0), 0);
    assert_eq!(msb_bit(&max, 1), 0);
    assert_eq!(msb_bit(&max, 2), 1);
}

#[test]
fn test_bigint4_integer_conversions() {
    let i = bigint4_to_integer(&[1, 2, 3, 4]);
    assert!(!i.negative);
    assert_eq!(i.digits, vec![1, 2, 3, 4]);
    assert_eq!(integer_to_bigint4(&i), [1, 2, 3, 4]);
    // the sign is dropped and the digits are zero-padded
    assert_eq!(integer_to_bigint4(&integer(-7)), [7, 0, 0, 0]);
    // digits past the fourth are dropped
    let long = Integer { negative: false, digits: vec![1, 2, 3, 4, 5, 6] };
    assert_eq!(integer_to_bigint4(&long), [1, 2, 3, 4]);
    assert_eq!(integer_to_bigint4(&Integer { negative: false, digits: vec![] }), [0; 4]);
}

#[test]
fn test_decomposition_basis() {
    let k1 = Fr::from_limbs([5, 0, 0, 0]).unwrap();
    let k2 = Fr::from_limbs([0, 0, 0, 9]).unwrap();
    let basis = decomposition_basis(&k1, &k2);
    assert_eq!(basis.len(), 3);
    let r = k1.limbs();
    let _ = r;
    let modulus = ArkFr::MODULUS.0;
    let values: Vec<Vec<[u64; 4]>> =
        basis.iter().map(|row| row.iter().map(integer_to_bigint4).collect()).collect();
    assert_eq!(values[0], vec![modulus, [0; 4], [0; 4]]);
    assert_eq!(values[1], vec![[0; 4], modulus, [0; 4]]);
    assert_eq!(values[2], vec![[5, 0, 0, 0], [0, 0, 0, 9], [1, 0, 0, 0]]);
    assert!(basis.iter().flatten().all(|i| !i.negative));
}

#[test]
fn test_check_reduced_basis() {
    let zero = || Integer { negative: false, digits: vec![] };
    let rows = vec![vec![integer(1), integer(2), zero()], vec![integer(-3), integer(4), integer(5)]];
    assert!(check_reduced_basis(&rows));
    // no row with a nonzero last entry
    assert!(!check_reduced_basis(&vec![vec![integer(1), integer(2), zero()]]));
    assert!(!check_reduced_basis(&vec![]));
    // a short row before the first usable one
    assert!(!check_reduced_basis(&vec![vec![integer(1)], vec![integer(1), integer(1), integer(1)]]));
    // an entry of 2^170 is too large, 2^170 - 1 is not
    let big = Integer { negative: true, digits: vec![0, 0, 1 << 42] };
    assert!(!check_reduced_basis(&vec![vec![big, integer(1), integer(1)]]));
    let below = Integer { negative: true, digits: vec![u64::MAX, u64::MAX, (1 << 42) - 1] };
    assert!(check_reduced_basis(&vec![vec![below, integer(1), integer(1)]]));
    // entries near r^(2/3), the size of the short rows of the lattice, are accepted
    let near = Integer { negative: false, digits: vec![7, 9, 1 << 41] };
    assert!(check_reduced_basis(&vec![vec![integer(3), near.clone(), near]]));
    // rows after the first usable one are not looked at
    let huge = Integer { negative: false, digits: vec![0, 0, 0, 0, 1] };
    assert!(check_reduced_basis(&vec![vec![integer(1), integer(1), integer(1)], vec![huge]]));
}

#[test]
fn test_decompose_reduced_basis() {
    let k1 = ArkFr::from(5u64);
    let k2 = ArkFr::from(7u64);
    let zero = Integer { negative: false, digits: vec![] };
    let rows = vec![
        vec![integer(1), integer(1), zero.clone()],
        vec![integer(-10), integer(-14), integer(-2)],
        vec![integer(5), integer(7), integer(1)],
    ];
    assert!(check_reduced_basis(&rows));
    let (x1, x2, z) = decompose_reduced_basis(&rows);
    assert_eq!(x1, Decomp(Fr::from_limbs([10, 0, 0, 0]).unwrap(), true));
    assert_eq!(x2, Decomp(Fr::from_limbs([14, 0, 0, 0]).unwrap(), true));
    assert_eq!(z, Decomp(Fr::from_limbs([2, 0, 0, 0]).unwrap(), true));
    assert_eq!(k1 * signed(&z) - signed(&x1), ArkFr::from(0u64));
    assert_eq!(k2 * signed(&z) - signed(&x2), ArkFr::from(0u64));

    // entries of about 2^169 decompose to their absolute values and signs
    let big = Integer { negative: true, digits: vec![5, 0, 1 << 41] };
    let rows = vec![vec![big, integer(2), integer(-3)]];
    let (x1, _, z) = decompose_reduced_basis(&rows);
    assert_eq!(x1, Decomp(Fr::from_limbs([5, 0, 1 << 41, 0]).unwrap(), true));
    assert_eq!(z, Decomp(Fr::from_limbs([3, 0, 0, 0]).unwrap(), true));

    // a negative zero is not negative
    let neg_zero = Integer { negative: true, digits: vec![0] };
    let rows = vec![vec![neg_zero, integer(3), integer(1)]];
    let (x1, x2, z) = decompose_reduced_basis(&rows);
    assert_eq!(x1, Decomp(Fr::zero(), false));
    assert_eq!(x2, Decomp(Fr::from_limbs([3, 0, 0, 0]).unwrap(), false));
    assert_eq!(z, Decomp(Fr::from_limbs([1, 0, 0, 0]).unwrap(), false));
}
