use libtriptych::point::Point;
use libtriptych::scalar::Scalar;
use libtriptych::signature::triptych;
use libtriptych::util;
use libtriptych::Errors;

fn ring_with_key(size: usize, index: usize) -> (Vec<Point>, Scalar) {
    let mut ring: Vec<Point> = vec![Point::identity(); size];
    let mut x = Scalar::one();
    for i in 0..size {
        let (sk, pk) = triptych::KeyGen().unwrap();
        ring[i] = pk;
        if i == index {
            x = sk;
        }
    }
    (ring, x)
}

#[test]
pub fn test_base_signature() {
    let G = util::hash_to_point("G");
    let m: usize = 4;
    let l: usize = 12;
    let len_M = 16;

    let mut M: Vec<Point> = vec![Point::identity(); len_M];

    let mut r: Scalar = Scalar::one();
    for i in 0..len_M {
        let sk = Scalar::random();
        M[i] = G.scale(&sk);

        if i == l {
            r = sk;
        }
    }

    let sgn: triptych::Signature = triptych::base_prove(&M, &l, &r, &m, "demo");

    let result = triptych::base_verify(&M, &sgn, &m, "demo");

    assert!(result.is_ok());
}

#[test]
pub fn test_signature() {
    let size = 128;
    let mut R: Vec<Point> = vec![Point::identity(); size];
    let mut x: Scalar = Scalar::one();
    let index = 14;

    for i in 0..size {
        let (sk, pk) = triptych::KeyGen().unwrap();
        R[i] = pk;

        if i == index {
            x = sk;
        }
    }
    let M = "This is a triptych signature test, lets see if it works or not";

    let sgn = triptych::Sign(&x, &M, &R).unwrap();

    let result = triptych::Verify(&sgn, &M, &R);

    assert!(result.is_ok());
}

#[test]
fn signatures_verify_for_small_rings_and_every_index() {
    for size in [1usize, 2, 4, 8] {
        for index in 0..size {
            let (ring, x) = ring_with_key(size, index);
            let sgn = triptych::Sign(&x, "msg", &ring).unwrap();
            assert!(triptych::Verify(&sgn, "msg", &ring).is_ok());
        }
    }
}

#[test]
fn signatures_verify_for_larger_rings() {
    for size in [16usize, 32, 64] {
        let (ring, x) = ring_with_key(size, size - 1);
        let sgn = triptych::Sign(&x, "msg", &ring).unwrap();
        assert!(triptych::Verify(&sgn, "msg", &ring).is_ok());
    }
}

#[test]
fn base_round_trip_and_a_replaced_member() {
    let G = util::hash_to_point("G");
    let mut ring: Vec<Point> = Vec::new();
    let mut r = Scalar::one();
    for i in 0..16 {
        let sk = Scalar::random();
        ring.push(G.scale(&sk));
        if i == 12 {
            r = sk;
        }
    }
    let sgn = triptych::base_prove(&ring, &12, &r, &4, "demo");
    assert_eq!(triptych::base_verify(&ring, &sgn, &4, "demo"), Ok(()));
    let (_, fresh) = triptych::KeyGen().unwrap();
    let mut other = ring.clone();
    other[12] = fresh;
    assert_eq!(triptych::base_verify(&other, &sgn, &4, "demo"), Err(Errors::TriptychError));
}

#[test]
fn a_proof_with_given_nonces_is_reproducible() {
    let (ring, x) = ring_with_key(4, 1);
    let nonces = triptych::ProofNonces::random(2);
    let a = triptych::prove_with_nonces(&ring, &1, &x, &2, "m", &nonces);
    let b = triptych::prove_with_nonces(&ring, &1, &x, &2, "m", &nonces);
    assert_eq!(a.z.z, b.z.z);
    assert_eq!(a.z.f, b.z.f);
    assert!(a.a.A.equals(&b.a.A));
    assert!(triptych::base_verify(&ring, &a, &2, "m").is_ok());
}

#[test]
fn verification_with_the_wrong_digit_count_fails() {
    let (ring, x) = ring_with_key(8, 3);
    let sgn = triptych::base_prove(&ring, &3, &x, &3, "m");
    assert_eq!(triptych::base_verify(&ring, &sgn, &2, "m"), Err(Errors::TriptychError));
    assert_eq!(triptych::base_verify(&ring, &sgn, &4, "m"), Err(Errors::TriptychError));
    assert_eq!(triptych::base_verify(&ring[..4], &sgn, &2, "m"), Err(Errors::TriptychError));
}

fn signed() -> (Vec<Point>, triptych::Signature) {
    let (ring, x) = ring_with_key(8, 5);
    let sgn = triptych::Sign(&x, "spot check", &ring).unwrap();
    assert!(triptych::Verify(&sgn, "spot check", &ring).is_ok());
    (ring, sgn)
}

fn rejected(ring: &[Point], sgn: &triptych::Signature) -> bool {
    triptych::Verify(sgn, "spot check", ring) == Err(Errors::TriptychError)
}

#[test]
fn changing_a_commitment_point_is_rejected() {
    let (ring, sgn) = signed();
    let other = util::hash_to_point("other");
    let mut s = sgn.clone();
    s.a.J = other;
    assert!(rejected(&ring, &s));
    let mut s = sgn.clone();
    s.a.A = other;
    assert!(rejected(&ring, &s));
    let mut s = sgn.clone();
    s.a.B = other;
    assert!(rejected(&ring, &s));
    let mut s = sgn.clone();
    s.a.C = other;
    assert!(rejected(&ring, &s));
    let mut s = sgn.clone();
    s.a.D = other;
    assert!(rejected(&ring, &s));
}

#[test]
fn changing_a_digit_point_is_rejected() {
    let (ring, sgn) = signed();
    let other = util::hash_to_point("other");
    for j in 0..3 {
        let mut s = sgn.clone();
        s.a.X[j] = other;
        assert!(rejected(&ring, &s));
        let mut s = sgn.clone();
        s.a.Y[j] = other;
        assert!(rejected(&ring, &s));
    }
}

#[test]
fn changing_a_response_is_rejected() {
    let (ring, sgn) = signed();
    let one = Scalar::one();
    for j in 0..3 {
        let mut s = sgn.clone();
        s.z.f[j][0] = s.z.f[j][0].add(&one);
        assert!(rejected(&ring, &s));
    }
    let mut s = sgn.clone();
    s.z.zA = s.z.zA.add(&one);
    assert!(rejected(&ring, &s));
    let mut s = sgn.clone();
    s.z.zC = s.z.zC.add(&one);
    assert!(rejected(&ring, &s));
    let mut s = sgn.clone();
    s.z.z = s.z.z.add(&one);
    assert!(rejected(&ring, &s));
}

#[test]
fn a_signature_of_the_wrong_shape_is_rejected() {
    let (ring, sgn) = signed();
    let mut s = sgn.clone();
    s.a.X.pop();
    assert!(rejected(&ring, &s));
    let mut s = sgn.clone();
    s.z.f[0].push(Scalar::one());
    assert!(rejected(&ring, &s));
    let mut s = sgn.clone();
    s.z.f.pop();
    assert!(rejected(&ring, &s));
}

#[test]
fn a_signature_is_bound_to_its_message() {
    let (ring, x) = ring_with_key(4, 2);
    let sgn = triptych::Sign(&x, "msg1", &ring).unwrap();
    assert!(triptych::Verify(&sgn, "msg1", &ring).is_ok());
    assert_eq!(triptych::Verify(&sgn, "msg2", &ring), Err(Errors::TriptychError));
}

#[test]
fn a_signature_is_bound_to_its_ring() {
    let (ring, x) = ring_with_key(4, 2);
    let sgn = triptych::Sign(&x, "msg", &ring).unwrap();
    for i in 0..4 {
        let mut other = ring.clone();
        other[i] = triptych::KeyGen().unwrap().1;
        assert_eq!(triptych::Verify(&sgn, "msg", &other), Err(Errors::TriptychError));
    }
    let mut swapped = ring.clone();
    swapped.swap(0, 1);
    assert_eq!(triptych::Verify(&sgn, "msg", &swapped), Err(Errors::TriptychError));
}

#[test]
fn signatures_by_one_key_link() {
    let (ring_a, x) = ring_with_key(4, 0);
    let (mut ring_b, _) = ring_with_key(8, 0);
    let G = util::hash_to_point("G");
    ring_b[6] = G.scale(&x);
    let sa = triptych::Sign(&x, "first", &ring_a).unwrap();
    let sb = triptych::Sign(&x, "second", &ring_b).unwrap();
    assert!(triptych::Verify(&sb, "second", &ring_b).is_ok());
    assert!(triptych::Link(&sa, &sb));
    let sc = triptych::Sign(&x, "first", &ring_a).unwrap();
    assert_eq!(sa.a.J.to_bytes(), sc.a.J.to_bytes());
    let expected = util::hash_to_point("U").scale(&x.invert());
    assert!(sa.a.J.equals(&expected));
}

#[test]
fn signatures_by_different_keys_do_not_link() {
    let (ring, x) = ring_with_key(4, 0);
    let (_, y) = ring_with_key(4, 0);
    let mut ring_y = ring.clone();
    ring_y[3] = util::hash_to_point("G").scale(&y);
    let sa = triptych::Sign(&x, "m", &ring).unwrap();
    let sb = triptych::Sign(&y, "m", &ring_y).unwrap();
    assert!(!triptych::Link(&sa, &sb));
}

#[test]
fn signing_errors() {
    let (ring, x) = ring_with_key(4, 1);
    let (_, stranger) = ring_with_key(1, 0);
    assert_eq!(triptych::Sign(&stranger, "m", &ring).err(), Some(Errors::SignerNotInRing));
    assert_eq!(triptych::Sign(&x, "m", &ring[..3]).err(), Some(Errors::RingSizeInvalid));
    assert_eq!(triptych::Sign(&x, "m", &[]).err(), Some(Errors::RingSizeInvalid));
    let mut with_identity = ring.clone();
    with_identity[0] = Point::identity();
    assert_eq!(
        triptych::Sign(&Scalar::zero(), "m", &with_identity).err(),
        Some(Errors::ArithmeticDegenerate)
    );
}

#[test]
fn the_first_matching_member_signs() {
    let (mut ring, x) = ring_with_key(4, 3);
    ring[1] = ring[3];
    let sgn = triptych::Sign(&x, "m", &ring).unwrap();
    assert!(triptych::Verify(&sgn, "m", &ring).is_ok());
}

#[test]
fn verifying_over_a_ring_of_invalid_size() {
    let (ring, x) = ring_with_key(4, 1);
    let sgn = triptych::Sign(&x, "m", &ring).unwrap();
    assert_eq!(triptych::Verify(&sgn, "m", &ring[..3]), Err(Errors::RingSizeInvalid));
    assert_eq!(triptych::Verify(&sgn, "m", &[]), Err(Errors::RingSizeInvalid));
}

#[test]
fn generated_keys_are_nonzero_and_match_their_public_keys() {
    let G = util::hash_to_point("G");
    for _ in 0..16 {
        let (sk, pk) = triptych::KeyGen().unwrap();
        assert!(!sk.is_zero());
        assert!(pk.equals(&G.scale(&sk)));
    }
}

#[test]
fn key_pairs_from_given_scalars() {
    assert!(triptych::key_pair_from(&Scalar::zero()).is_none());
    let r = Scalar::random();
    let (sk, pk) = triptych::key_pair_from(&r).unwrap();
    assert_eq!(sk, r);
    assert!(pk.equals(&util::hash_to_point("G").scale(&r)));
    let (_, pk_one) = triptych::key_pair_from(&Scalar::one()).unwrap();
    assert!(pk_one.equals(&util::hash_to_point("G")));
}
