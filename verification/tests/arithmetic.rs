use ark_ec::AffineCurve;
use ark_ff::{BigInteger, FromBytes, PrimeField, ToBytes};
use ferveo::bls12_381::fr::Scalar;
use ferveo::bls12_381::g1::G1Point;
use ferveo::curve25519::{EdwardsPoint, MontgomeryPoint, Scalar25519};
use ferveo::encoding::{append, bytes_eq, to_array32};
use ferveo::hash::digest32;
use ferveo::hybridvss::bivariate::BivariatePoly;
use ferveo::hybridvss::commitment::{commit, row_eval, Commitment};
use ferveo::hybridvss::domain::{all_distinct_nonzero, Domain};
use ferveo::hybridvss::poly::{evaluate, Interpolation};
use ferveo::syncvss::nizkp::challenge;
use rand::rngs::StdRng;
use rand::SeedableRng;

// The order of the scalar field of BLS12-381, little-endian.
const FR_MODULUS_LE: [u8; 32] = [
    0x01, 0x00, 0x00, 0x00, 0xff, 0xff, 0xff, 0xff, 0xfe, 0x5b, 0xfe, 0xff, 0x02, 0xa4, 0xbd, 0x53,
    0x05, 0xd8, 0xa1, 0x09, 0x08, 0xd8, 0x39, 0x33, 0x48, 0x7d, 0x9d, 0x29, 0x53, 0xa7, 0xed, 0x73,
];

// The order of the prime-order subgroup of Curve25519, little-endian.
const GROUP_ORDER_LE: [u8; 32] = [
    0xed, 0xd3, 0xf5, 0x5c, 0x1a, 0x63, 0x12, 0x58, 0xd6, 0x9c, 0xf7, 0xa2, 0xde, 0xf9, 0xde, 0x14,
    0x00, 0x00, 0x00, 0x00, 0x00, 0x00, 0x00, 0x00, 0x00, 0x00, 0x00, 0x00, 0x00, 0x00, 0x00, 0x10,
];

fn fr(x: u64) -> Scalar {
    Scalar::from_u64(x)
}

fn minus_one() -> Scalar {
    let mut bytes = FR_MODULUS_LE;
    bytes[0] -= 1;
    Scalar::from_le_bytes(&bytes).unwrap()
}

fn small25519(x: u8) -> Scalar25519 {
    let mut bytes = [0u8; 32];
    bytes[0] = x;
    Scalar25519::from_bytes_mod_order(bytes)
}

#[test]
fn field_arithmetic_on_small_numbers() {
    assert!(fr(3).add(&fr(4)) == fr(7));
    assert!(fr(3).mul(&fr(4)) == fr(12));
    assert!(fr(9).sub(&fr(4)) == fr(5));
    assert!(Scalar::zero() == fr(0));
    assert!(Scalar::one() == fr(1));
    assert!(fr(0).is_zero());
    assert!(!fr(1).is_zero());
    assert!(fr(5).equals(&fr(5)));
    assert!(!fr(5).equals(&fr(6)));
}

#[test]
fn field_arithmetic_wraps_at_the_modulus() {
    // 3 - 4 = p - 1, (p - 1) + 1 = 0, (p - 1) * (p - 1) = 1.
    assert!(fr(3).sub(&fr(4)) == minus_one());
    assert!(minus_one().add(&fr(1)) == fr(0));
    assert!(minus_one().mul(&minus_one()) == fr(1));
}

#[test]
fn field_elements_are_read_below_the_modulus_only() {
    assert!(Scalar::from_le_bytes(&FR_MODULUS_LE).is_none());
    assert!(Scalar::from_le_bytes(&[0xff; 32]).is_none());
    let mut seven = [0u8; 32];
    seven[0] = 7;
    assert!(Scalar::from_le_bytes(&seven).unwrap() == fr(7));
    // 2^64 has the second limb set.
    let mut big = [0u8; 32];
    big[8] = 1;
    let two_64 = Scalar::from_le_bytes(&big).unwrap();
    assert!(two_64 == fr(1 << 63).add(&fr(1 << 63)));
}

#[test]
fn field_elements_are_reduced_from_numbers_of_any_length() {
    assert!(Scalar::from_le_bytes_mod_order(&FR_MODULUS_LE) == fr(0));
    let mut above = FR_MODULUS_LE;
    above[0] += 5;
    assert!(Scalar::from_le_bytes_mod_order(&above) == fr(5));
    assert!(Scalar::from_le_bytes_mod_order(&[7]) == fr(7));
    assert!(Scalar::from_le_bytes_mod_order(&[]) == fr(0));
    // 2^256 = 2^64 * 2^64 * 2^64 * 2^64.
    let mut wide = [0u8; 33];
    wide[32] = 1;
    let two_64 = fr(1 << 63).add(&fr(1 << 63));
    let two_256 = two_64.mul(&two_64).mul(&two_64).mul(&two_64);
    assert!(Scalar::from_le_bytes_mod_order(&wide) == two_256);
    // 2^256 - 1 is not reduced, and is read reduced.
    assert!(Scalar::from_le_bytes_mod_order(&[0xff; 32]) == two_256.sub(&fr(1)));
    assert!(Scalar::from_le_bytes(&[0xff; 32]).is_none());
}

#[test]
fn field_arithmetic_agrees_with_the_outside_field() {
    let mut rng = StdRng::seed_from_u64(21);
    for _ in 0..50 {
        let a = Scalar::random(&mut rng);
        let b = Scalar::random(&mut rng);
        // The same operations in the outside field.
        let x = ark_bls12_381::Fr::read(&a.to_le_bytes()[..]).unwrap();
        let y = ark_bls12_381::Fr::read(&b.to_le_bytes()[..]).unwrap();
        assert_eq!(a.add(&b).to_le_bytes().to_vec(), (x + y).into_repr().to_bytes_le());
        assert_eq!(a.sub(&b).to_le_bytes().to_vec(), (x - y).into_repr().to_bytes_le());
        assert_eq!(a.mul(&b).to_le_bytes().to_vec(), (x * y).into_repr().to_bytes_le());
        assert!(Scalar::from_le_bytes(&a.to_le_bytes()).unwrap() == a);
        // (a + b) - b = a, (a * b) = (b * a), a - a = 0.
        assert!(a.add(&b).sub(&b) == a);
        assert!(a.mul(&b) == b.mul(&a));
        assert!(a.sub(&a).is_zero());
        // a * (b + 1) = a * b + a.
        assert!(a.mul(&b.add(&fr(1))) == a.mul(&b).add(&a));
    }
}

#[test]
fn scalars_of_curve25519_reduce_and_wrap() {
    assert_eq!(Scalar25519::from_bytes_mod_order(GROUP_ORDER_LE).to_bytes(), [0u8; 32]);
    let mut order_plus_two = GROUP_ORDER_LE;
    order_plus_two[0] += 2;
    assert_eq!(
        Scalar25519::from_bytes_mod_order(order_plus_two).to_bytes(),
        small25519(2).to_bytes()
    );
    assert_eq!(small25519(3).mul(&small25519(4)).to_bytes(), small25519(12).to_bytes());
    assert_eq!(small25519(9).sub(&small25519(4)).to_bytes(), small25519(5).to_bytes());
    let mut order_minus_one = GROUP_ORDER_LE;
    order_minus_one[0] -= 1;
    assert_eq!(small25519(3).sub(&small25519(4)).to_bytes(), order_minus_one);
}

#[test]
fn scalars_of_curve25519_are_read_canonically() {
    assert!(Scalar25519::from_canonical_bytes(GROUP_ORDER_LE).is_none());
    assert!(Scalar25519::from_canonical_bytes([0xff; 32]).is_none());
    let mut order_minus_one = GROUP_ORDER_LE;
    order_minus_one[0] -= 1;
    assert_eq!(
        Scalar25519::from_canonical_bytes(order_minus_one).unwrap().to_bytes(),
        order_minus_one
    );
}

#[test]
fn edwards_points_are_read_when_they_decompress() {
    let base = MontgomeryPoint(curve25519_dalek::constants::X25519_BASEPOINT.to_bytes());
    let lifted = base.to_edwards(0).unwrap();
    let bytes = lifted.to_bytes();
    assert_eq!(
        bytes,
        curve25519_dalek::constants::ED25519_BASEPOINT_COMPRESSED.to_bytes()
    );
    assert_eq!(EdwardsPoint::from_bytes(&bytes).unwrap().to_bytes(), bytes);
    // y = 2 is the y-coordinate of no point.
    let mut two = [0u8; 32];
    two[0] = 2;
    assert!(EdwardsPoint::from_bytes(&two).is_none());
}

#[test]
fn random_scalars_differ() {
    let mut rng = StdRng::seed_from_u64(22);
    let a = Scalar25519::random(&mut rng);
    let b = Scalar25519::random(&mut rng);
    assert_ne!(a.to_bytes(), b.to_bytes());
    let c = Scalar::random(&mut rng);
    let d = Scalar::random(&mut rng);
    assert!(c != d);
}

#[test]
fn montgomery_multiplication_is_that_of_dalek() {
    let base = MontgomeryPoint(curve25519_dalek::constants::X25519_BASEPOINT.to_bytes());
    let two = base.mul(&small25519(2));
    let expected = curve25519_dalek::constants::X25519_BASEPOINT
        * curve25519_dalek::scalar::Scalar::from(2u8);
    assert_eq!(two.0, expected.to_bytes());
    assert_ne!(two.0, base.0);
    // 2 * (3 * B) = 6 * B.
    assert_eq!(base.mul(&small25519(3)).mul(&small25519(2)).0, base.mul(&small25519(6)).0);
}

#[test]
fn edwards_lift_and_projection_round_trip() {
    let base = MontgomeryPoint(curve25519_dalek::constants::X25519_BASEPOINT.to_bytes());
    for sign in 0..2u8 {
        let lifted = base.to_edwards(sign).unwrap();
        assert_eq!(lifted.to_montgomery().0, base.0);
        // 2 * P + 3 * P = 5 * P, seen on the u-coordinate.
        let sum = lifted.mul(&small25519(2)).add(&lifted.mul(&small25519(3)));
        assert_eq!(sum.to_montgomery().0, base.mul(&small25519(5)).0);
        assert_ne!(sum.to_montgomery().0, base.0);
    }
    // The two lifts are negatives of each other: their sum is the identity,
    // which projects to the u-coordinate zero.
    let plus = base.to_edwards(0).unwrap();
    let minus = base.to_edwards(1).unwrap();
    assert_eq!(plus.add(&minus).to_montgomery().0, [0u8; 32]);
}

#[test]
fn digest_is_blake2b_256() {
    // BLAKE2b-256 of the empty string.
    let expected: [u8; 32] = [
        0x0e, 0x57, 0x51, 0xc0, 0x26, 0xe5, 0x43, 0xb2, 0xe8, 0xab, 0x2e, 0xb0, 0x60, 0x99, 0xda,
        0xa1, 0xd1, 0xe5, 0xdf, 0x47, 0x77, 0x8f, 0x77, 0x87, 0xfa, 0xab, 0x45, 0xcd, 0xf1, 0x2f,
        0xe3, 0xa8,
    ];
    assert_eq!(digest32(&[]), expected);
    assert_ne!(digest32(&[0]), expected);
}

#[test]
fn challenge_is_the_first_digest_that_is_a_field_element() {
    let mut retried = 0;
    let mut direct = 0;
    for seed in 0..40u8 {
        let transcript = vec![seed, 1, 2, 3];
        let mut expected = None;
        let mut attempts = 0u32;
        for attempt in 0..=255u8 {
            let mut input = transcript.clone();
            if attempt > 0 {
                input.push(attempt);
            }
            let digest = blake2b_simd::Params::new().hash_length(32).hash(&input);
            if let Ok(element) = ark_bls12_381::Fr::read(digest.as_bytes()) {
                let mut bytes = [0u8; 32];
                element.write(&mut bytes[..]).unwrap();
                expected = Some(Scalar::from_le_bytes(&bytes).unwrap());
                attempts = attempt as u32;
                break;
            }
        }
        if attempts > 0 {
            retried += 1;
        } else {
            direct += 1;
        }
        assert!(challenge(&transcript) == expected.unwrap());
    }
    // Both the direct case and the retry were seen.
    assert!(retried > 0 && direct > 0);
}

#[test]
fn byte_helpers() {
    assert!(bytes_eq(&[1, 2, 3], &[1, 2, 3]));
    assert!(!bytes_eq(&[1, 2, 3], &[1, 2, 4]));
    assert!(!bytes_eq(&[1, 2, 3], &[1, 2]));
    assert!(bytes_eq(&[], &[]));
    let mut buffer = vec![9u8];
    append(&mut buffer, &[1, 2]);
    append(&mut buffer, &[]);
    assert_eq!(buffer, vec![9, 1, 2]);
    let source: Vec<u8> = (0..32).collect();
    let array = to_array32(&source);
    assert_eq!(&array[..], &source[..]);
}

#[test]
fn generator_has_the_encoding_of_the_curve_parameters() {
    let mut expected = [0u8; 97];
    ark_bls12_381::G1Affine::prime_subgroup_generator()
        .write(&mut expected[..])
        .unwrap();
    assert_eq!(G1Point::generator().to_bytes(), expected);
    assert_eq!(G1Point::generator().as_bytes(), &expected[..]);
}

#[test]
fn group_operations_are_those_of_the_curve() {
    let g = G1Point::generator();
    let g_affine = ark_bls12_381::G1Affine::prime_subgroup_generator();
    // g + g = 2 g = the outside crate's double.
    let mut doubled = [0u8; 97];
    (g_affine + g_affine).write(&mut doubled[..]).unwrap();
    assert_eq!(g.add(&g).to_bytes(), doubled);
    assert_eq!(g.mul(&fr(2)).to_bytes(), doubled);
    assert!(g.add(&g).equals(&g.mul(&fr(2))));
    assert!(!g.add(&g).equals(&g));
    // 1 g = g, and 0 g is the point at infinity: x = 0, y = 1, flag set.
    assert!(g.mul(&fr(1)).equals(&g));
    let mut infinity = [0u8; 97];
    infinity[48] = 1;
    infinity[96] = 1;
    assert_eq!(g.mul(&fr(0)).to_bytes(), infinity);
    // A scalar beyond 64 bits.
    let s = minus_one();
    let mut expected = [0u8; 97];
    let product: ark_bls12_381::G1Affine = g_affine
        .mul((-ark_bls12_381::Fr::from(1u64)).into_repr())
        .into();
    product.write(&mut expected[..]).unwrap();
    assert_eq!(g.mul(&s).to_bytes(), expected);
    // (p - 1) g + g is the point at infinity.
    assert_eq!(g.mul(&s).add(&g).to_bytes(), infinity);
}

#[test]
fn points_are_decoded_only_when_they_are_in_the_group() {
    let g = G1Point::generator();
    let bytes = g.to_bytes();
    assert!(G1Point::from_bytes(&bytes).unwrap().equals(&g));
    // A flipped coordinate bit leaves the curve.
    let mut off_curve = bytes;
    off_curve[0] ^= 1;
    assert!(G1Point::from_bytes(&off_curve).is_none());
    // A coordinate that is no field element does not decode.
    let mut not_canonical = bytes;
    for b in not_canonical[0..48].iter_mut() {
        *b = 0xff;
    }
    assert!(G1Point::from_bytes(&not_canonical).is_none());
    // A flag byte that is no boolean does not decode.
    let mut bad_flag = bytes;
    bad_flag[96] = 2;
    assert!(G1Point::from_bytes(&bad_flag).is_none());
    // The point (0, 2) is on the curve y^2 = x^3 + 4 but not in the group.
    let mut outside_subgroup = [0u8; 97];
    outside_subgroup[48] = 2;
    assert!(G1Point::from_bytes(&outside_subgroup).is_none());
}

#[test]
fn polynomials_evaluate_by_their_coefficients() {
    // 3 + 2 x + x^2 at 5 is 38, at 0 is 3.
    let p = vec![fr(3), fr(2), fr(1)];
    assert!(evaluate(&p, &fr(5)) == fr(38));
    assert!(evaluate(&p, &fr(0)) == fr(3));
    assert!(evaluate(&vec![], &fr(5)) == fr(0));
    assert!(evaluate(&vec![fr(7)], &fr(5)) == fr(7));
    // -x at 1 is p - 1.
    assert!(evaluate(&vec![fr(0), minus_one()], &fr(1)) == minus_one());
}

#[test]
fn interpolation_recovers_a_polynomial() {
    // 3 + 2 x + x^2 through the nodes 1, 2, 4: values 6, 11, 27.
    let xs = vec![fr(1), fr(2), fr(4)];
    let ys = vec![fr(6), fr(11), fr(27)];
    let interpolation = Interpolation::new(xs, ys).unwrap();
    assert!(interpolation.evaluate(&fr(0)) == fr(3));
    assert!(interpolation.evaluate(&fr(5)) == fr(38));
    assert!(interpolation.evaluate(&fr(2)) == fr(11));
    // A line through two points: y = 2 x.
    let line = Interpolation::new(vec![fr(1), fr(2)], vec![fr(2), fr(4)]).unwrap();
    assert!(line.evaluate(&fr(0)) == fr(0));
    assert!(line.evaluate(&fr(5)) == fr(10));
    // One point: the constant.
    let constant = Interpolation::new(vec![fr(9)], vec![fr(4)]).unwrap();
    assert!(constant.evaluate(&fr(123)) == fr(4));
    // No point: zero.
    let nothing = Interpolation::new(vec![], vec![]).unwrap();
    assert!(nothing.evaluate(&fr(123)) == fr(0));
}

#[test]
fn interpolation_refuses_equal_nodes_and_unequal_lengths() {
    assert!(Interpolation::new(vec![fr(1), fr(2), fr(1)], vec![fr(1), fr(2), fr(3)]).is_none());
    assert!(Interpolation::new(vec![fr(1), fr(2)], vec![fr(1)]).is_none());
}

#[test]
fn interpolation_recovers_random_polynomials() {
    let mut rng = StdRng::seed_from_u64(23);
    for degree in 0..6usize {
        let p: Vec<Scalar> = (0..=degree).map(|_| Scalar::random(&mut rng)).collect();
        let xs: Vec<Scalar> = (0..=degree).map(|_| Scalar::random(&mut rng)).collect();
        let ys: Vec<Scalar> = xs.iter().map(|x| evaluate(&p, x)).collect();
        let interpolation = Interpolation::new(xs, ys).unwrap();
        let x = Scalar::random(&mut rng);
        assert!(interpolation.evaluate(&x) == evaluate(&p, &x));
        assert!(interpolation.evaluate(&fr(0)) == p[0]);
    }
}

#[test]
fn domain_points_are_the_powers_of_a_root_of_unity() {
    let domain = Domain::new(6).unwrap();
    assert_eq!(domain.len(), 6);
    assert!(domain.point(0) == fr(1));
    let omega = domain.point(1);
    let mut power = fr(1);
    for k in 0..6 {
        assert!(domain.point(k) == power);
        power = power.mul(&omega);
    }
    // The subgroup for six participants has order eight.
    let mut eighth = fr(1);
    for _ in 0..8 {
        eighth = eighth.mul(&omega);
    }
    assert!(eighth == fr(1));
    let mut fourth = fr(1);
    for _ in 0..4 {
        fourth = fourth.mul(&omega);
    }
    assert!(fourth == minus_one());
    // The generator is that of the outside crate.
    let outside: ark_poly::Radix2EvaluationDomain<ark_bls12_381::Fr> =
        ark_poly::EvaluationDomain::new(6).unwrap();
    let mut bytes = [0u8; 32];
    outside.group_gen.write(&mut bytes[..]).unwrap();
    assert!(omega == Scalar::from_le_bytes(&bytes).unwrap());
    let copy = domain.duplicate();
    assert_eq!(copy.len(), 6);
    assert!(copy.point(5) == domain.point(5));
    assert_eq!(Domain::empty().len(), 0);
    assert_eq!(Domain::new(1).unwrap().len(), 1);
    assert_eq!(Domain::new(0).unwrap().len(), 0);
}

#[test]
fn distinctness_check_finds_zeros_and_repetitions() {
    assert!(all_distinct_nonzero(&vec![fr(1), fr(2), fr(3)]));
    assert!(!all_distinct_nonzero(&vec![fr(1), fr(0), fr(3)]));
    assert!(!all_distinct_nonzero(&vec![fr(1), fr(2), fr(1)]));
    assert!(all_distinct_nonzero(&vec![]));
}

#[test]
fn bivariate_polynomials_are_symmetric_with_the_secret_as_constant_term() {
    let mut rng = StdRng::seed_from_u64(24);
    let s = Scalar::random(&mut rng);
    let phi = BivariatePoly::random(&s, 3, &mut rng);
    assert_eq!(phi.size(), 4);
    // phi(0, 0) = s.
    assert!(phi.row_polynomial(&fr(0))[0] == s);
    // phi(x, y) = phi(y, x).
    let x = Scalar::random(&mut rng);
    let y = Scalar::random(&mut rng);
    assert!(evaluate(&phi.row_polynomial(&y), &x) == evaluate(&phi.row_polynomial(&x), &y));
    // The coefficients are not all equal.
    assert!(phi.row_polynomial(&fr(0))[1] != phi.row_polynomial(&fr(0))[2]);
}

#[test]
fn bivariate_polynomials_fix_the_row_polynomials() {
    // phi = 5 + 2 (x + y) + 3 x y: at y = 4 the row polynomial is 13 + 14 x.
    let phi =
        BivariatePoly::from_coefficients(vec![vec![fr(5), fr(2)], vec![fr(2), fr(3)]]).unwrap();
    let row = phi.row_polynomial(&fr(4));
    assert_eq!(row.len(), 2);
    assert!(row[0] == fr(13));
    assert!(row[1] == fr(14));
    let skew = vec![vec![fr(5), fr(2)], vec![fr(1), fr(3)]];
    assert!(BivariatePoly::from_coefficients(skew).is_none());
    assert!(BivariatePoly::from_coefficients(vec![vec![fr(5), fr(2)], vec![fr(2)]]).is_none());
    assert!(BivariatePoly::from_coefficients(vec![vec![fr(5), fr(2)]]).is_none());
}

#[test]
fn zeroize_overwrites_every_coefficient() {
    let mut phi =
        BivariatePoly::from_coefficients(vec![vec![fr(5), fr(2)], vec![fr(2), fr(3)]]).unwrap();
    phi.zeroize();
    assert_eq!(phi.size(), 2);
    let row = phi.row_polynomial(&fr(4));
    assert!(row[0] == fr(0) && row[1] == fr(0));
}

#[test]
fn commitments_evaluate_like_the_polynomials_they_commit_to() {
    // The row commits to 3 + 2 x + x^2; at 5 it commits to 38.
    let row = vec![commit(&fr(3)), commit(&fr(2)), commit(&fr(1))];
    assert!(row_eval(&row, &fr(5)).unwrap().equals(&commit(&fr(38))));
    assert!(!row_eval(&row, &fr(5)).unwrap().equals(&commit(&fr(39))));
    assert!(row_eval(&vec![], &fr(5)).is_none());
    assert!(commit(&fr(1)).equals(&G1Point::generator()));
    let matrix = Commitment { rows: vec![row.clone(), row.clone()] };
    assert!(matrix.is_well_shaped(2, 2));
    assert!(!matrix.is_well_shaped(2, 3));
    assert!(!matrix.is_well_shaped(3, 2));
    assert!(matrix.verify_evaluation(2, 2, 1, &fr(5), &fr(38)));
    assert!(!matrix.verify_evaluation(2, 2, 1, &fr(5), &fr(37)));
    assert!(!matrix.verify_evaluation(2, 2, 2, &fr(5), &fr(38)));
    assert!(matrix.equals(&matrix.duplicate()));
    let changed = vec![commit(&fr(3)), commit(&fr(2)), commit(&fr(2))];
    let other = Commitment { rows: vec![row.clone(), changed] };
    assert!(!matrix.equals(&other));
    assert!(!matrix.equals(&Commitment { rows: vec![row] }));
}
