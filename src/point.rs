//! Elements of the Ristretto group, kept as their canonical compressed
//! encoding. The group law is opaque here: each operation is named by what it
//! yields on encodings.
use vstd::prelude::*;
use crate::scalar::{le_value, Scalar};

verus! {

/// Whether `CompressedRistretto::decompress` accepts the 32 bytes.
pub uninterp spec fn valid_point(b: Seq<u8>) -> bool;

/// The encoding of the sum of the two points encoded by `a` and `b`.
pub uninterp spec fn point_sum(a: Seq<u8>, b: Seq<u8>) -> Seq<u8>;

/// The encoding of `k` times the point encoded by `p`.
pub uninterp spec fn point_scale(k: int, p: Seq<u8>) -> Seq<u8>;

/// The encoding of `RistrettoPoint::hash_from_bytes::<Sha512>` of `b`.
pub uninterp spec fn hash_point(b: Seq<u8>) -> Seq<u8>;

/// The encoding of the identity element: 32 zero bytes.
pub open spec fn identity_encoding() -> Seq<u8> {
    Seq::new(32, |i: int| 0u8)
}

/// A group element, by its compressed encoding; every value holds an
/// encoding that decompresses.
#[derive(Clone, Copy, Debug)]
pub struct Point {
    bytes: [u8; 32],
}

impl View for Point {
    type V = Seq<u8>;

    closed spec fn view(&self) -> Seq<u8> {
        self.bytes@
    }
}

impl Point {
    #[verifier::type_invariant]
    spec fn decompresses(self) -> bool {
        valid_point(self.bytes@)
    }

    /// Relies on curve25519_dalek's `CompressedRistretto::decompress`:
    /// a point exactly where the bytes are a valid encoding.
    #[verifier::external_body]
    fn dalek_from_bytes(b: [u8; 32]) -> (r: Option<Point>)
        ensures
            r.is_some() == valid_point(b@),
            r.is_some() ==> r.unwrap()@ == b@,
    {
        match curve25519_dalek::ristretto::CompressedRistretto(b).decompress() {
            Some(_) => Some(Point { bytes: b }),
            None => None,
        }
    }

    /// The point that `b` encodes, if it is a valid encoding.
    pub fn from_bytes(b: [u8; 32]) -> (r: Option<Point>)
        ensures
            r.is_some() == valid_point(b@),
            r.is_some() ==> r.unwrap()@ == b@,
    {
        Self::dalek_from_bytes(b)
    }

    /// The compressed encoding.
    pub fn to_bytes(&self) -> (r: [u8; 32])
        ensures
            r@ == self@,
    {
        self.bytes
    }

    /// Relies on curve25519_dalek's `RistrettoPoint::identity`, whose
    /// compressed encoding is all zeros.
    #[verifier::external_body]
    fn dalek_identity() -> (r: Point)
        ensures
            r@ == identity_encoding(),
    {
        let p = <curve25519_dalek::ristretto::RistrettoPoint as curve25519_dalek::traits::Identity>::identity();
        Point { bytes: p.compress().to_bytes() }
    }

    /// The identity element.
    pub fn identity() -> (r: Point)
        ensures
            r@ == identity_encoding(),
    {
        Self::dalek_identity()
    }

    /// Relies on curve25519_dalek's `RistrettoPoint::hash_from_bytes::<Sha512>`.
    #[verifier::external_body]
    fn dalek_hash_from_bytes(b: &[u8]) -> (r: Point)
        ensures
            r@ == hash_point(b@),
    {
        let p = curve25519_dalek::ristretto::RistrettoPoint::hash_from_bytes::<sha2::Sha512>(b);
        Point { bytes: p.compress().to_bytes() }
    }

    /// The point hashed from `b`.
    pub fn hash_from_bytes(b: &[u8]) -> (r: Point)
        ensures
            r@ == hash_point(b@),
    {
        Self::dalek_hash_from_bytes(b)
    }

    /// Relies on curve25519_dalek's point `+`. Both encodings decompress,
    /// by the type's invariant.
    #[verifier::external_body]
    fn dalek_add(&self, o: &Point) -> (r: Point)
        ensures
            r@ == point_sum(self@, o@),
    {
        let x = curve25519_dalek::ristretto::CompressedRistretto(self.bytes).decompress().unwrap();
        let y = curve25519_dalek::ristretto::CompressedRistretto(o.bytes).decompress().unwrap();
        Point { bytes: (x + y).compress().to_bytes() }
    }

    /// The sum of the two points.
    pub fn add(&self, o: &Point) -> (r: Point)
        ensures
            r@ == point_sum(self@, o@),
    {
        self.dalek_add(o)
    }

    /// Relies on curve25519_dalek's scalar-by-point `*`. The encoding
    /// decompresses, by the type's invariant.
    #[verifier::external_body]
    fn dalek_scale(&self, k: [u8; 32]) -> (r: Point)
        ensures
            r@ == point_scale(le_value(k@) as int, self@),
    {
        let x = curve25519_dalek::ristretto::CompressedRistretto(self.bytes).decompress().unwrap();
        let s = curve25519_dalek::scalar::Scalar::from_bytes_mod_order(k);
        Point { bytes: (s * x).compress().to_bytes() }
    }

    /// `k` times the point.
    pub fn scale(&self, k: &Scalar) -> (r: Point)
        ensures
            r@ == point_scale(k@, self@),
    {
        self.dalek_scale(k.to_bytes())
    }

    /// Equality of the two group elements, which is equality of their
    /// canonical encodings.
    pub fn equals(&self, o: &Point) -> (r: bool)
        ensures
            r == (self@ == o@),
    {
        let mut i: usize = 0;
        while i < 32
            invariant
                0 <= i <= 32,
                forall|k: int| 0 <= k < i ==> self.bytes@[k] == o.bytes@[k],
            decreases 32 - i,
        {
            if self.bytes[i] != o.bytes[i] {
                return false;
            }
            i = i + 1;
        }
        assert(self.bytes@ =~= o.bytes@);
        true
    }
}

} // verus!
