use libtriptych::point::Point;
use libtriptych::scalar::Scalar;
use libtriptych::util;

#[test]
fn identity_is_the_zero_encoding_and_neutral() {
    let id = Point::identity();
    assert_eq!(id.to_bytes(), [0u8; 32]);
    let g = util::hash_to_point("G");
    assert!(g.add(&id).equals(&g));
    assert!(g.scale(&Scalar::zero()).equals(&id));
    assert!(g.scale(&Scalar::one()).equals(&g));
}

#[test]
fn group_operations_agree() {
    let g = util::hash_to_point("G");
    let two = Scalar::one().add(&Scalar::one());
    assert!(g.add(&g).equals(&g.scale(&two)));
    assert!(!g.add(&g).equals(&g));
}

#[test]
fn decoding_points() {
    let g = util::hash_to_point("G");
    let back = Point::from_bytes(g.to_bytes()).unwrap();
    assert!(back.equals(&g));
    assert!(Point::from_bytes([0u8; 32]).is_some());
    assert!(Point::from_bytes([0xffu8; 32]).is_none());
}
