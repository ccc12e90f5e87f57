//! Elements of the scalar field of the Ristretto group, kept as their
//! canonical little-endian encoding and viewed as integers modulo the
//! group order.
use vstd::prelude::*;
use vstd::arithmetic::power::pow;
use vstd::arithmetic::power2::pow2;

verus! {

/// The order of the Ristretto group: 2^252 + 27742317777372353535851937790883648493.
pub open spec fn group_order() -> int {
    pow2(252) + 27742317777372353535851937790883648493int
}

/// The integer that a byte string encodes, least significant byte first.
pub open spec fn le_value(b: Seq<u8>) -> nat
    decreases b.len(),
{
    if b.len() == 0 {
        0
    } else {
        b[0] as nat + 256 * le_value(b.drop_first())
    }
}

/// What `hash_from_bytes` with SHA-512 gives for a byte string, as an integer.
pub uninterp spec fn hash_scalar(b: Seq<u8>) -> int;

pub proof fn lemma_group_order_gt_one()
    ensures
        group_order() > 1,
{
    vstd::arithmetic::power2::lemma_pow2_pos(252);
}

/// A scalar modulo the group order.
#[derive(Clone, Copy, PartialEq, Eq, Debug)]
pub struct Scalar {
    bytes: [u8; 32],
}

impl View for Scalar {
    type V = int;

    closed spec fn view(&self) -> int {
        le_value(self.bytes@) as int
    }
}

impl Scalar {
    /// The scalar 0.
    pub fn zero() -> (r: Scalar)
        ensures
            r@ == 0,
    {
        let r = Scalar { bytes: [0u8; 32] };
        proof {
            lemma_le_value_zero(r.bytes@);
        }
        r
    }

    /// The scalar 1.
    pub fn one() -> (r: Scalar)
        ensures
            r@ == 1,
    {
        let r = Scalar {
            bytes: [1u8, 0, 0, 0, 0, 0, 0, 0, 0, 0, 0, 0, 0, 0, 0, 0, 0, 0, 0, 0, 0, 0, 0, 0, 0, 0, 0, 0, 0, 0, 0, 0],
        };
        proof {
            lemma_le_value_zero(r.bytes@.drop_first());
        }
        r
    }

    /// Relies on curve25519_dalek's `Scalar::random` over rand's thread
    /// generator: some reduced scalar.
    #[verifier::external_body]
    fn dalek_random() -> (r: Scalar)
        ensures
            0 <= r@ < group_order(),
    {
        let mut rng = rand::thread_rng();
        Scalar { bytes: curve25519_dalek::scalar::Scalar::random(&mut rng).to_bytes() }
    }

    /// A uniformly random scalar.
    pub fn random() -> (r: Scalar)
        ensures
            0 <= r@ < group_order(),
    {
        Self::dalek_random()
    }

    /// Relies on curve25519_dalek's `Scalar::from_bytes_mod_order`: the
    /// encoded integer reduced modulo the group order.
    #[verifier::external_body]
    fn dalek_from_bytes_mod_order(b: [u8; 32]) -> (r: Scalar)
        ensures
            r@ == (le_value(b@) as int) % group_order(),
    {
        Scalar { bytes: curve25519_dalek::scalar::Scalar::from_bytes_mod_order(b).to_bytes() }
    }

    /// The scalar that 32 little-endian bytes encode, reduced.
    pub fn from_bytes_mod_order(b: [u8; 32]) -> (r: Scalar)
        ensures
            r@ == (le_value(b@) as int) % group_order(),
    {
        Self::dalek_from_bytes_mod_order(b)
    }

    /// Relies on curve25519_dalek's `Scalar::hash_from_bytes::<Sha512>`:
    /// a reduced scalar that depends on the bytes alone.
    #[verifier::external_body]
    fn dalek_hash_from_bytes(b: &[u8]) -> (r: Scalar)
        ensures
            r@ == hash_scalar(b@),
            0 <= r@ < group_order(),
    {
        Scalar {
            bytes: curve25519_dalek::scalar::Scalar::hash_from_bytes::<sha2::Sha512>(b).to_bytes(),
        }
    }

    /// The scalar hashed from `b`.
    pub fn hash_from_bytes(b: &[u8]) -> (r: Scalar)
        ensures
            r@ == hash_scalar(b@),
            0 <= r@ < group_order(),
    {
        Self::dalek_hash_from_bytes(b)
    }

    /// Relies on curve25519_dalek's scalar `+`: the sum modulo the group order.
    #[verifier::external_body]
    fn dalek_add(&self, o: &Scalar) -> (r: Scalar)
        ensures
            r@ == (self@ + o@) % group_order(),
    {
        let x = curve25519_dalek::scalar::Scalar::from_bytes_mod_order(self.bytes);
        let y = curve25519_dalek::scalar::Scalar::from_bytes_mod_order(o.bytes);
        Scalar { bytes: (x + y).to_bytes() }
    }

    /// The sum.
    pub fn add(&self, o: &Scalar) -> (r: Scalar)
        ensures
            r@ == (self@ + o@) % group_order(),
    {
        self.dalek_add(o)
    }

    /// Relies on curve25519_dalek's scalar `-`: the difference modulo the group order.
    #[verifier::external_body]
    fn dalek_sub(&self, o: &Scalar) -> (r: Scalar)
        ensures
            r@ == (self@ - o@) % group_order(),
    {
        let x = curve25519_dalek::scalar::Scalar::from_bytes_mod_order(self.bytes);
        let y = curve25519_dalek::scalar::Scalar::from_bytes_mod_order(o.bytes);
        Scalar { bytes: (x - y).to_bytes() }
    }

    /// The difference.
    pub fn sub(&self, o: &Scalar) -> (r: Scalar)
        ensures
            r@ == (self@ - o@) % group_order(),
    {
        self.dalek_sub(o)
    }

    /// Relies on curve25519_dalek's scalar `*`: the product modulo the group order.
    #[verifier::external_body]
    fn dalek_mul(&self, o: &Scalar) -> (r: Scalar)
        ensures
            r@ == (self@ * o@) % group_order(),
    {
        let x = curve25519_dalek::scalar::Scalar::from_bytes_mod_order(self.bytes);
        let y = curve25519_dalek::scalar::Scalar::from_bytes_mod_order(o.bytes);
        Scalar { bytes: (x * y).to_bytes() }
    }

    /// The product.
    pub fn mul(&self, o: &Scalar) -> (r: Scalar)
        ensures
            r@ == (self@ * o@) % group_order(),
    {
        self.dalek_mul(o)
    }

    /// Relies on curve25519_dalek's scalar negation: the opposite modulo the group order.
    #[verifier::external_body]
    fn dalek_neg(&self) -> (r: Scalar)
        ensures
            r@ == (-self@) % group_order(),
    {
        let x = curve25519_dalek::scalar::Scalar::from_bytes_mod_order(self.bytes);
        Scalar { bytes: (-x).to_bytes() }
    }

    /// The opposite.
    pub fn neg(&self) -> (r: Scalar)
        ensures
            r@ == (-self@) % group_order(),
    {
        self.dalek_neg()
    }

    /// Relies on curve25519_dalek's `Scalar::invert`, which raises the
    /// scalar to the power (group order - 2); zero maps to zero.
    #[verifier::external_body]
    fn dalek_invert(&self) -> (r: Scalar)
        ensures
            r@ == pow(self@, (group_order() - 2) as nat) % group_order(),
    {
        let x = curve25519_dalek::scalar::Scalar::from_bytes_mod_order(self.bytes);
        Scalar { bytes: x.invert().to_bytes() }
    }

    /// The inverse; zero for zero.
    pub fn invert(&self) -> (r: Scalar)
        ensures
            r@ == pow(self@, (group_order() - 2) as nat) % group_order(),
    {
        self.dalek_invert()
    }

    /// The canonical encoding of the scalar.
    pub fn to_bytes(&self) -> (r: [u8; 32])
        ensures
            le_value(r@) == self@,
    {
        self.bytes
    }

    /// Whether the scalar is zero.
    pub fn is_zero(&self) -> (r: bool)
        ensures
            r == (self@ == 0),
    {
        let mut i: usize = 0;
        while i < 32
            invariant
                0 <= i <= 32,
                forall|k: int| 0 <= k < i ==> self.bytes@[k] == 0,
            decreases 32 - i,
        {
            if self.bytes[i] != 0 {
                proof { lemma_le_value_nonzero(self.bytes@, i as int); }
                return false;
            }
            i = i + 1;
        }
        proof { lemma_le_value_zero(self.bytes@); }
        true
    }
}

proof fn lemma_le_value_zero(b: Seq<u8>)
    requires
        forall|k: int| 0 <= k < b.len() ==> b[k] == 0,
    ensures
        le_value(b) == 0,
    decreases b.len(),
{
    if b.len() > 0 {
        lemma_le_value_zero(b.drop_first());
    }
}

proof fn lemma_le_value_nonzero(b: Seq<u8>, i: int)
    requires
        0 <= i < b.len(),
        b[i] != 0,
    ensures
        le_value(b) != 0,
    decreases b.len(),
{
    if i > 0 {
        lemma_le_value_nonzero(b.drop_first(), i - 1);
    }
}

} // verus!
