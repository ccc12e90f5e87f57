use libtriptych::scalar::Scalar;
use libtriptych::util;

fn small(v: u8) -> Scalar {
    let mut b = [0u8; 32];
    b[0] = v;
    Scalar::from_bytes_mod_order(b)
}

#[test]
pub fn test_power() {
    let demo_scalar = Scalar::random();
    let mut result = Scalar::one();
    let exponent: usize = 225;
    for _ in 0..exponent {
        result = result.mul(&demo_scalar);
    }

    assert_eq!(util::power(&demo_scalar, &exponent), result);
}

#[test]
pub fn test_pad() {
    let result = util::pad(&127, &9);
    let compare: Vec<usize> = vec![1, 1, 1, 1, 1, 1, 1, 0, 0];

    assert_eq!(compare, result);
}

#[test]
pub fn test_convolve() {
    let first = vec![Scalar::one(), Scalar::one()];
    let second = vec![Scalar::one(), Scalar::one()];

    assert_eq!(
        util::convolve(&first, &second),
        vec![Scalar::one(), Scalar::one().add(&Scalar::one()), Scalar::one()]
    );
}

#[test]
fn pad_of_zero_and_of_the_largest_index() {
    assert_eq!(util::pad(&0, &3), vec![0, 0, 0]);
    assert_eq!(util::pad(&7, &3), vec![1, 1, 1]);
    assert_eq!(util::pad(&0, &0), Vec::<usize>::new());
    assert_eq!(util::pad(&12, &4), vec![0, 0, 1, 1]);
}

#[test]
fn pad_digits_read_back_to_the_index() {
    for m in 0..8usize {
        for k in 0..(1usize << m) {
            let d = util::pad(&k, &m);
            assert_eq!(d.len(), m);
            let mut v = 0usize;
            for (j, digit) in d.iter().enumerate() {
                v += digit << j;
            }
            assert_eq!(v, k);
        }
    }
}

#[test]
fn delta_is_one_only_on_equal_arguments() {
    assert_eq!(util::delta(&1, &1), Scalar::one());
    assert_eq!(util::delta(&0, &1), Scalar::zero());
    assert_eq!(util::delta(&1, &0), Scalar::zero());
}

#[test]
fn power_zero_is_one_even_for_zero() {
    assert_eq!(util::power(&Scalar::zero(), &0), Scalar::one());
    assert_eq!(util::power(&Scalar::random(), &0), Scalar::one());
}

#[test]
fn power_of_small_values() {
    assert_eq!(util::power(&small(3), &4), small(81));
    assert_eq!(util::power(&small(2), &7), small(128));
    assert_eq!(util::power(&Scalar::zero(), &3), Scalar::zero());
}

#[test]
fn power_adds_exponents() {
    let b = Scalar::random();
    let lhs = util::power(&b, &13);
    let rhs = util::power(&b, &6).mul(&util::power(&b, &7));
    assert_eq!(lhs, rhs);
}

#[test]
fn convolve_lengths_and_values() {
    // (1 + 2X + 3X^2)(4 + 5X) = 4 + 13X + 22X^2 + 15X^3
    let p = vec![small(1), small(2), small(3)];
    let q = vec![small(4), small(5)];
    assert_eq!(util::convolve(&p, &q), vec![small(4), small(13), small(22), small(15)]);
    assert_eq!(util::convolve(&p, &[]), Vec::<Scalar>::new());
    assert_eq!(util::convolve(&[], &q), Vec::<Scalar>::new());
}

#[test]
fn convolve_commutes_and_associates() {
    let p = vec![Scalar::random(), Scalar::random(), Scalar::random()];
    let q = vec![Scalar::random(), Scalar::random()];
    let r = vec![Scalar::random(), Scalar::random(), Scalar::random(), Scalar::random()];
    assert_eq!(util::convolve(&p, &q), util::convolve(&q, &p));
    let left = util::convolve(&util::convolve(&p, &q), &r);
    let right = util::convolve(&p, &util::convolve(&q, &r));
    assert_eq!(left, right);
}

#[test]
fn scalar_arithmetic_reduces_modulo_the_order() {
    assert_eq!(small(2).add(&small(3)), small(5));
    assert_eq!(small(7).sub(&small(3)), small(4));
    assert_eq!(small(6).mul(&small(7)), small(42));
    assert_eq!(small(1).neg().add(&small(1)), Scalar::zero());
    assert_eq!(small(3).sub(&small(5)), small(2).neg());
    assert_eq!(small(2).invert().mul(&small(2)), Scalar::one());
    assert_eq!(Scalar::zero().invert(), Scalar::zero());
    assert!(Scalar::zero().is_zero());
    assert!(!small(9).is_zero());
    let mut b = [0u8; 32];
    b[0] = 9;
    assert_eq!(small(9).to_bytes(), b);
}

#[test]
fn the_group_order_reduces_to_zero() {
    let order: [u8; 32] = [
        0xed, 0xd3, 0xf5, 0x5c, 0x1a, 0x63, 0x12, 0x58, 0xd6, 0x9c, 0xf7, 0xa2, 0xde, 0xf9, 0xde, 0x14,
        0, 0, 0, 0, 0, 0, 0, 0, 0, 0, 0, 0, 0, 0, 0, 0x10,
    ];
    assert!(Scalar::from_bytes_mod_order(order).is_zero());
}

#[test]
fn hashing_to_scalars_and_points_is_deterministic() {
    let a = Scalar::hash_from_bytes(b"abc");
    assert_eq!(a, Scalar::hash_from_bytes(b"abc"));
    assert_ne!(a, Scalar::hash_from_bytes(b"abd"));
    let p = util::hash_to_point("G");
    assert!(p.equals(&util::hash_to_point("G")));
    assert!(!p.equals(&util::hash_to_point("H")));
    assert_ne!(p.to_bytes(), [0u8; 32]);
}

#[test]
fn pedersen_commitment_depends_on_every_entry() {
    let data = vec![vec![small(1), small(2)], vec![small(3), small(4)]];
    let blind = small(5);
    let com = util::pedersen_commitment(&data, &blind);
    assert!(com.equals(&util::pedersen_commitment(&data, &blind)));
    let mut other = data.clone();
    other[1][0] = small(9);
    assert!(!com.equals(&util::pedersen_commitment(&other, &blind)));
    assert!(!com.equals(&util::pedersen_commitment(&data, &small(6))));
    // an empty matrix commits to the blinder alone
    let h = util::hash_to_point("H");
    assert!(util::pedersen_commitment(&[], &blind).equals(&h.scale(&blind)));
}

#[test]
fn zero_and_one_encode_their_values() {
    assert_eq!(Scalar::zero().to_bytes(), [0u8; 32]);
    let mut b = [0u8; 32];
    b[0] = 1;
    assert_eq!(Scalar::one().to_bytes(), b);
    assert_eq!(Scalar::one().mul(&small(9)), small(9));
    assert_eq!(Scalar::zero().add(&small(9)), small(9));
}
