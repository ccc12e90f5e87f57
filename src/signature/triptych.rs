//! The one-out-of-many proof over a ring of `2^m` public keys, and the
//! linkable ring signature built on it.
#![allow(non_snake_case)]

use vstd::prelude::*;
use vstd::arithmetic::div_mod::*;
use vstd::arithmetic::mul::*;
use vstd::arithmetic::power::*;
use vstd::arithmetic::power2::*;
use vstd::string::StringSliceAdditionalSpecFns;
use crate::point::{hash_point, identity_encoding, point_scale, point_sum, Point};
use crate::scalar::{group_order, hash_scalar, lemma_group_order_gt_one, Scalar};
use crate::util::{self, commitment, delta_value, digit, matrix_values, poly_product, scalar_values};
use crate::Errors::{self, TriptychError};

verus! {

/// The group-element part of a signature.
#[derive(Clone, Debug)]
pub struct TriptychEllipticCurveState {
    pub J: Point,
    pub A: Point,
    pub B: Point,
    pub C: Point,
    pub D: Point,
    pub X: Vec<Point>,
    pub Y: Vec<Point>,
}

/// The scalar part of a signature: the responses `f[j]` (column 1 of each
/// digit row; column 0 is implied) and `zA`, `zC`, `z`.
#[derive(Clone, Debug)]
pub struct TriptychScalarState {
    pub f: Vec<Vec<Scalar>>,
    pub zA: Scalar,
    pub zC: Scalar,
    pub z: Scalar,
}

/// A proof, or a ring signature.
#[derive(Clone, Debug)]
pub struct Signature {
    pub a: TriptychEllipticCurveState,
    pub z: TriptychScalarState,
}

/// The generator of public keys, hashed from "G".
pub open spec fn base_point() -> Seq<u8> {
    hash_point(seq![71u8])
}

/// The generator of key images, hashed from "U".
pub open spec fn image_base() -> Seq<u8> {
    hash_point(seq![85u8])
}

/// The encodings of a sequence of points.
pub open spec fn point_views(v: Seq<Point>) -> Seq<Seq<u8>> {
    v.map_values(|p: Point| p@)
}

/// The first `n` encodings of `s`, one after another.
pub open spec fn flatten(s: Seq<Seq<u8>>, n: int) -> Seq<u8>
    decreases n,
{
    if n <= 0 {
        seq![]
    } else {
        flatten(s, n - 1) + s[n - 1]
    }
}

/// `Y[0], X[0], Y[1], X[1], ...`, the first `n` pairs.
pub open spec fn interleave(y: Seq<Seq<u8>>, x: Seq<Seq<u8>>, n: int) -> Seq<u8>
    decreases n,
{
    if n <= 0 {
        seq![]
    } else {
        interleave(y, x, n - 1) + y[n - 1] + x[n - 1]
    }
}

/// The Fiat-Shamir transcript: the ring, the message, `J, A, B, C, D`, and
/// the `m` pairs `Y[j], X[j]`.
pub open spec fn transcript(
    ring: Seq<Seq<u8>>,
    msg: Seq<u8>,
    e: TriptychEllipticCurveState,
    m: nat,
) -> Seq<u8> {
    flatten(ring, ring.len() as int) + msg + e.J@ + e.A@ + e.B@ + e.C@ + e.D@ + interleave(
        point_views(e.Y@),
        point_views(e.X@),
        m as int,
    )
}

/// The challenge that the transcript hashes to.
pub open spec fn challenge_of(ring: Seq<Seq<u8>>, msg: Seq<u8>, e: TriptychEllipticCurveState, m: nat) -> int {
    hash_scalar(transcript(ring, msg, e, m))
}

/// The full response matrix: column 0 is `x - f[j][1]`, column 1 is transmitted.
pub open spec fn full_responses(f: Seq<Seq<int>>, x: int) -> Seq<Seq<int>> {
    Seq::new(f.len(), |j: int| seq![(x - f[j][0]) % group_order(), f[j][0]])
}

/// `f[j][i] * (x - f[j][i])` entry by entry.
pub open spec fn response_products(f: Seq<Seq<int>>, x: int) -> Seq<Seq<int>> {
    Seq::new(
        f.len(),
        |j: int|
            Seq::new(
                f[j].len(),
                |i: int| (f[j][i] * ((x - f[j][i]) % group_order())) % group_order(),
            ),
    )
}

/// `start` plus the sum of `x^j * pts[j]` over `j < n`.
pub open spec fn weighted_sum(start: Seq<u8>, pts: Seq<Seq<u8>>, x: int, n: int) -> Seq<u8>
    decreases n,
{
    if n <= 0 {
        start
    } else {
        point_sum(
            weighted_sum(start, pts, x, n - 1),
            point_scale(pow(x, (n - 1) as nat) % group_order(), pts[n - 1]),
        )
    }
}

/// The product of `f[j][k_j]` over the first `n` digits `k_j` of `k`.
pub open spec fn digit_product(f: Seq<Seq<int>>, k: int, n: int) -> int
    decreases n,
{
    if n <= 0 {
        1
    } else {
        (f[n - 1][digit(k, (n - 1) as nat)] * digit_product(f, k, n - 1)) % group_order()
    }
}

/// The sum over ring indices `k < n` of `digit_product(f, k, m) * ring[k]`.
pub open spec fn ring_sum(ring: Seq<Seq<u8>>, f: Seq<Seq<int>>, m: nat, n: int) -> Seq<u8>
    decreases n,
{
    if n <= 0 {
        identity_encoding()
    } else {
        point_sum(ring_sum(ring, f, m, n - 1), point_scale(digit_product(f, n - 1, m as int), ring[n - 1]))
    }
}

/// The sum over ring indices `k < n` of `digit_product(f, k, m)`.
pub open spec fn product_total(f: Seq<Seq<int>>, m: nat, n: int) -> int
    decreases n,
{
    if n <= 0 {
        0
    } else {
        (product_total(f, m, n - 1) + digit_product(f, n - 1, m as int)) % group_order()
    }
}

/// A signature has the dimensions of a proof over `m` digits.
pub open spec fn has_shape(sig: Signature, m: nat) -> bool {
    &&& sig.a.X@.len() == m
    &&& sig.a.Y@.len() == m
    &&& sig.z.f@.len() == m
    &&& forall|j: int| 0 <= j < m ==> (#[trigger] sig.z.f@[j])@.len() == 1
}

/// The four verification equations over a ring of encodings.
pub open spec fn equations_hold(ring: Seq<Seq<u8>>, msg: Seq<u8>, sig: Signature, m: nat) -> bool {
    let e = sig.a;
    let s = sig.z;
    let x = challenge_of(ring, msg, e, m);
    let f = full_responses(matrix_values(s.f@), x);
    &&& point_sum(e.A@, point_scale(x, e.B@)) == commitment(f, s.zA@)
    &&& point_sum(e.D@, point_scale(x, e.C@)) == commitment(response_products(f, x), s.zC@)
    &&& weighted_sum(point_scale(s.z@, base_point()), point_views(e.X@), x, m as int)
        == ring_sum(ring, f, m, ring.len() as int)
    &&& weighted_sum(point_scale(s.z@, e.J@), point_views(e.Y@), x, m as int)
        == point_scale(product_total(f, m, ring.len() as int), image_base())
}

/// Whether `sig` is a valid proof over `ring` of `2^m` keys for `msg`.
pub open spec fn proof_valid(ring: Seq<Seq<u8>>, msg: Seq<u8>, sig: Signature, m: nat) -> bool {
    &&& ring.len() == pow2(m)
    &&& has_shape(sig, m)
    &&& equations_hold(ring, msg, sig, m)
}

/// `Some(m)` where `len` is `2^m`, else `None`.
fn ring_digits(len: usize) -> (r: Option<usize>)
    ensures
        match r {
            Some(m) => len as int == pow2(m as nat),
            None => forall|e: nat| #[trigger] pow2(e) != len as int,
        },
{
    let mut base: usize = 1;
    let mut m: usize = 0;
    proof {
        lemma2_to64();
    }
    while base < len
        invariant
            base as int == pow2(m as nat),
            1 <= base,
            m <= base,
            m > 0 ==> pow2((m - 1) as nat) < len,
        decreases len - m,
    {
        if base > usize::MAX / 2 {
            proof {
                lemma_pow2_unfold((m + 1) as nat);
                assert forall|e: nat| #[trigger] pow2(e) != len as int by {
                    if e <= m {
                        if e < m {
                            lemma_pow2_strictly_increases(e, m as nat);
                        }
                    } else {
                        if e > m + 1 {
                            lemma_pow2_strictly_increases((m + 1) as nat, e);
                        }
                    }
                }
            }
            return None;
        }
        proof {
            lemma_pow2_unfold((m + 1) as nat);
        }
        base = base * 2;
        m = m + 1;
    }
    if base == len {
        Some(m)
    } else {
        proof {
            assert forall|e: nat| #[trigger] pow2(e) != len as int by {
                if e < m {
                    if m > 0 && e < m - 1 {
                        lemma_pow2_strictly_increases(e, (m - 1) as nat);
                    }
                    if m == 0 {
                        lemma_pow2_pos(e);
                    }
                } else if e > m {
                    lemma_pow2_strictly_increases(m as nat, e);
                }
            }
        }
        None
    }
}

/// Appends the bytes of `b` to `t`.
fn append_bytes(t: &mut Vec<u8>, b: &[u8])
    ensures
        final(t)@ == old(t)@ + b@,
{
    let mut i: usize = 0;
    while i < b.len()
        invariant
            0 <= i <= b@.len(),
            t@ == old(t)@ + b@.subrange(0, i as int),
        decreases b@.len() - i,
    {
        t.push(b[i]);
        i = i + 1;
        proof {
            assert(b@.subrange(0, i as int) =~= b@.subrange(0, i - 1).push(b@[i - 1]));
        }
    }
    assert(b@.subrange(0, b@.len() as int) =~= b@);
}

/// Appends the encoding of `p` to `t`.
fn append_point(t: &mut Vec<u8>, p: &Point)
    ensures
        final(t)@ == old(t)@ + p@,
{
    let b = p.to_bytes();
    append_bytes(t, b.as_slice());
}

/// The Fiat-Shamir transcript of a proof.
fn build_transcript(M: &[Point], message: &str, e: &TriptychEllipticCurveState, m: usize) -> (t: Vec<u8>)
    requires
        e.X@.len() == m,
        e.Y@.len() == m,
    ensures
        t@ == transcript(point_views(M@), message.spec_bytes(), *e, m as nat),
{
    let ghost ring = point_views(M@);
    let mut t: Vec<u8> = Vec::new();
    let mut k: usize = 0;
    while k < M.len()
        invariant
            ring == point_views(M@),
            0 <= k <= M@.len(),
            t@ == flatten(ring, k as int),
        decreases M@.len() - k,
    {
        append_point(&mut t, &M[k]);
        k = k + 1;
    }
    append_bytes(&mut t, message.as_bytes());
    append_point(&mut t, &e.J);
    append_point(&mut t, &e.A);
    append_point(&mut t, &e.B);
    append_point(&mut t, &e.C);
    append_point(&mut t, &e.D);
    let ghost head = t@;
    let mut i: usize = 0;
    while i < m
        invariant
            e.X@.len() == m,
            e.Y@.len() == m,
            0 <= i <= m,
            t@ == head + interleave(point_views(e.Y@), point_views(e.X@), i as int),
        decreases m - i,
    {
        append_point(&mut t, &e.Y[i]);
        append_point(&mut t, &e.X[i]);
        i = i + 1;
        proof {
            assert(t@ =~= head + interleave(point_views(e.Y@), point_views(e.X@), i as int));
        }
    }
    t
}

/// The point hashed from a one-byte label.
fn label_point(c: u8) -> (r: Point)
    ensures
        r@ == hash_point(seq![c]),
{
    let mut label: Vec<u8> = Vec::new();
    label.push(c);
    proof {
        assert(label@ =~= seq![c]);
    }
    Point::hash_from_bytes(label.as_slice())
}

/// `start` plus the sum of `x^j * pts[j]` over all `j`.
fn weighted_point_sum(start: Point, pts: &Vec<Point>, x: &Scalar) -> (r: Point)
    ensures
        r@ == weighted_sum(start@, point_views(pts@), x@, pts@.len() as int),
{
    let mut acc = start;
    let mut j: usize = 0;
    while j < pts.len()
        invariant
            0 <= j <= pts@.len(),
            acc@ == weighted_sum(start@, point_views(pts@), x@, j as int),
        decreases pts@.len() - j,
    {
        let w = util::power(x, &j);
        acc = acc.add(&pts[j].scale(&w));
        j = j + 1;
    }
    acc
}

/// Verification of the proof `sgn` over the ring `M` of `2^m` keys for `message`.
pub fn base_verify(M: &[Point], sgn: &Signature, m: &usize, message: &str) -> (r: Result<(), Errors>)
    ensures
        r.is_ok() == proof_valid(point_views(M@), message.spec_bytes(), *sgn, *m as nat),
        r.is_err() ==> r == Err::<(), Errors>(TriptychError),
{
    let m = *m;
    let ghost ring = point_views(M@);
    let ghost msg = message.spec_bytes();
    let ghost l = group_order();
    proof {
        lemma_group_order_gt_one();
    }
    match ring_digits(M.len()) {
        Some(d) => {
            if d != m {
                proof {
                    if d < m {
                        lemma_pow2_strictly_increases(d as nat, m as nat);
                    } else {
                        lemma_pow2_strictly_increases(m as nat, d as nat);
                    }
                }
                return Err(TriptychError);
            }
        },
        None => {
            return Err(TriptychError);
        },
    }
    let e = &sgn.a;
    let s = &sgn.z;
    if e.X.len() != m || e.Y.len() != m || s.f.len() != m {
        return Err(TriptychError);
    }
    let mut j: usize = 0;
    while j < m
        invariant
            sgn.z.f@.len() == m,
            0 <= j <= m,
            forall|jj: int| 0 <= jj < j ==> (#[trigger] sgn.z.f@[jj])@.len() == 1,
        decreases m - j,
    {
        if sgn.z.f[j].len() != 1 {
            assert(sgn.z.f@[j as int]@.len() != 1);
            assert(!has_shape(*sgn, m as nat));
            return Err(TriptychError);
        }
        j = j + 1;
    }
    assert(has_shape(*sgn, m as nat));
    let N = M.len();
    let ghost sv = matrix_values(s.f@);
    let t = build_transcript(M, message, e, m);
    let x = Scalar::hash_from_bytes(t.as_slice());
    let ghost fv = full_responses(sv, x@);
    // the full response matrix
    let mut f: Vec<Vec<Scalar>> = Vec::new();
    let mut j: usize = 0;
    while j < m
        invariant
            sv == matrix_values(s.f@),
            fv == full_responses(sv, x@),
            has_shape(*sgn, m as nat),
            s.f@.len() == m,
            forall|jj: int| 0 <= jj < m ==> (#[trigger] s.f@[jj])@.len() == 1,
            0 <= j <= m,
            f@.len() == j,
            forall|jj: int| 0 <= jj < j ==> scalar_values((#[trigger] f@[jj])@) =~= fv[jj],
            forall|jj: int| 0 <= jj < j ==> (#[trigger] f@[jj])@.len() == 2,
        decreases m - j,
    {
        let f1 = s.f[j][0];
        let f0 = x.sub(&f1);
        let mut row: Vec<Scalar> = Vec::new();
        row.push(f0);
        row.push(f1);
        f.push(row);
        proof {
            assert(s.f@[j as int]@.len() == 1);
        }
        j = j + 1;
    }
    proof {
        assert(matrix_values(f@) =~= fv);
    }
    let com_first = util::pedersen_commitment(f.as_slice(), &s.zA);
    // the products f * (x - f)
    let mut g: Vec<Vec<Scalar>> = Vec::new();
    let ghost gv = response_products(fv, x@);
    let mut j: usize = 0;
    while j < m
        invariant
            fv == full_responses(sv, x@),
            matrix_values(f@) == fv,
            gv == response_products(fv, x@),
            f@.len() == m,
            forall|jj: int| 0 <= jj < m ==> (#[trigger] f@[jj])@.len() == 2,
            0 <= j <= m,
            g@.len() == j,
            forall|jj: int| 0 <= jj < j ==> scalar_values((#[trigger] g@[jj])@) =~= gv[jj],
        decreases m - j,
    {
        let mut row: Vec<Scalar> = Vec::new();
        let mut i: usize = 0;
        while i < 2
            invariant
                matrix_values(f@) == fv,
                f@.len() == m,
                0 <= j < m,
                f@[j as int]@.len() == 2,
                0 <= i <= 2,
                row@.len() == i,
                forall|ii: int| 0 <= ii < i ==> (#[trigger] row@[ii])@ == gv[j as int][ii],
                gv == response_products(fv, x@),
            decreases 2 - i,
        {
            let d = x.sub(&f[j][i]);
            row.push(f[j][i].mul(&d));
            proof {
                assert(fv[j as int][i as int] == f@[j as int]@[i as int]@);
            }
            i = i + 1;
        }
        g.push(row);
        proof {
            assert(scalar_values(row@) =~= gv[j as int]);
        }
        j = j + 1;
    }
    proof {
        assert(matrix_values(g@) =~= gv);
    }
    let com_second = util::pedersen_commitment(g.as_slice(), &s.zC);
    let first_lhs = e.A.add(&e.B.scale(&x));
    let second_lhs = e.D.add(&e.C.scale(&x));
    let G = label_point(71u8);
    let U = label_point(85u8);
    let third_lhs = weighted_point_sum(G.scale(&s.z), &e.X, &x);
    let fourth_lhs = weighted_point_sum(e.J.scale(&s.z), &e.Y, &x);
    let mut third_rhs = Point::identity();
    let mut total = Scalar::zero();
    let mut k: usize = 0;
    while k < N
        invariant
            N == M@.len(),
            N == pow2(m as nat),
            ring == point_views(M@),
            matrix_values(f@) == fv,
            f@.len() == m,
            forall|jj: int| 0 <= jj < m ==> (#[trigger] f@[jj])@.len() == 2,
            0 <= k <= N,
            third_rhs@ == ring_sum(ring, fv, m as nat, k as int),
            total@ == product_total(fv, m as nat, k as int),
        decreases N - k,
    {
        let bits = util::pad(&k, &m);
        let mut prod = Scalar::one();
        let mut j: usize = 0;
        while j < m
            invariant
                matrix_values(f@) == fv,
                f@.len() == m,
                forall|jj: int| 0 <= jj < m ==> (#[trigger] f@[jj])@.len() == 2,
                bits@.len() == m,
                forall|jj: int| 0 <= jj < m ==> bits@[jj] as int == digit(k as int, jj as nat),
                0 <= j <= m,
                prod@ == digit_product(fv, k as int, j as int),
            decreases m - j,
        {
            let b = bits[j];
            proof {
                assert(bits@[j as int] as int == digit(k as int, j as nat));
                assert(fv[j as int][b as int] == f@[j as int]@[b as int]@);
            }
            prod = f[j][b].mul(&prod);
            j = j + 1;
        }
        third_rhs = third_rhs.add(&M[k].scale(&prod));
        total = total.add(&prod);
        k = k + 1;
    }
    let fourth_rhs = U.scale(&total);
    if first_lhs.equals(&com_first) && second_lhs.equals(&com_second) && third_lhs.equals(&third_rhs)
        && fourth_lhs.equals(&fourth_rhs) {
        Ok(())
    } else {
        Err(TriptychError)
    }
}

/// The random values that blind a proof: the four commitment blinders,
/// column 1 of the matrix `a` (one entry per digit), and one `rho` per digit.
pub struct ProofNonces {
    pub rA: Scalar,
    pub rB: Scalar,
    pub rC: Scalar,
    pub rD: Scalar,
    pub a: Vec<Scalar>,
    pub rho: Vec<Scalar>,
}

impl ProofNonces {
    /// Fresh random nonces for a proof over `m` digits.
    pub fn random(m: usize) -> (r: ProofNonces)
        ensures
            r.a@.len() == m,
            r.rho@.len() == m,
            0 <= r.rA@ < group_order(),
            0 <= r.rB@ < group_order(),
            0 <= r.rC@ < group_order(),
            0 <= r.rD@ < group_order(),
            forall|j: int| 0 <= j < m ==> 0 <= (#[trigger] r.a@[j])@ < group_order(),
            forall|j: int| 0 <= j < m ==> 0 <= (#[trigger] r.rho@[j])@ < group_order(),
    {
        let rA = Scalar::random();
        let rB = Scalar::random();
        let rC = Scalar::random();
        let rD = Scalar::random();
        let mut a: Vec<Scalar> = Vec::new();
        let mut rho: Vec<Scalar> = Vec::new();
        let mut j: usize = 0;
        while j < m
            invariant
                0 <= j <= m,
                a@.len() == j,
                rho@.len() == j,
                forall|i: int| 0 <= i < j ==> 0 <= (#[trigger] a@[i])@ < group_order(),
                forall|i: int| 0 <= i < j ==> 0 <= (#[trigger] rho@[i])@ < group_order(),
            decreases m - j,
        {
            a.push(Scalar::random());
            rho.push(Scalar::random());
            j = j + 1;
        }
        ProofNonces { rA, rB, rC, rD, a, rho }
    }
}

/// The matrix `a`: each row sums to zero, column 1 is `a1`.
pub open spec fn blinding_matrix(a1: Seq<int>) -> Seq<Seq<int>> {
    Seq::new(a1.len(), |j: int| seq![(0 - a1[j]) % group_order(), a1[j]])
}

/// The matrix `b`: row `j` is the indicator of digit `j` of `l`.
pub open spec fn indicator_matrix(l: int, m: nat) -> Seq<Seq<int>> {
    Seq::new(m, |j: int| Seq::new(2, |i: int| delta_value(digit(l, j as nat), i)))
}

/// The matrix `c`: `a * (1 - 2b)` entry by entry.
pub open spec fn cross_matrix(a: Seq<Seq<int>>, b: Seq<Seq<int>>) -> Seq<Seq<int>> {
    Seq::new(a.len(), |j: int| Seq::new(2, |i: int| (a[j][i] * (1 - 2 * b[j][i])) % group_order()))
}

/// The matrix `d`: `-a^2` entry by entry.
pub open spec fn square_matrix(a: Seq<Seq<int>>) -> Seq<Seq<int>> {
    Seq::new(a.len(), |j: int| Seq::new(2, |i: int| (-a[j][i] * a[j][i]) % group_order()))
}

/// The product over the first `n` digits `k_j` of `k` of the polynomials
/// `a[j][k_j] + delta(l_j, k_j) * X`.
pub open spec fn index_poly(a: Seq<Seq<int>>, l: int, k: int, n: int) -> Seq<int>
    decreases n,
{
    if n <= 0 {
        seq![1]
    } else {
        let j = (n - 1) as nat;
        poly_product(
            index_poly(a, l, k, n - 1),
            seq![a[n - 1][digit(k, j)], delta_value(digit(l, j), digit(k, j))],
        )
    }
}

/// `rho * G` plus the sum over ring indices `k < n` of `polys[k][j] * ring[k]`.
pub open spec fn digit_point(ring: Seq<Seq<u8>>, polys: Seq<Seq<int>>, rho: int, j: int, n: int) -> Seq<u8>
    decreases n,
{
    if n <= 0 {
        point_scale(rho, base_point())
    } else {
        point_sum(digit_point(ring, polys, rho, j, n - 1), point_scale(polys[n - 1][j], ring[n - 1]))
    }
}

/// The sum of `rho[j] * x^j` over `j < n`.
pub open spec fn rho_sum(rho: Seq<int>, x: int, n: int) -> int
    decreases n,
{
    if n <= 0 {
        0
    } else {
        (rho_sum(rho, x, n - 1) + (rho[n - 1] * (pow(x, (n - 1) as nat) % group_order())) % group_order())
            % group_order()
    }
}

/// The key image of the private scalar `r`: `r^-1 * U`.
pub open spec fn key_image(r: int) -> Seq<u8> {
    point_scale(pow(r, (group_order() - 2) as nat) % group_order(), image_base())
}

/// The matrix `a` from its column 1.
fn blinding_rows(a1: &Vec<Scalar>) -> (r: Vec<Vec<Scalar>>)
    ensures
        matrix_values(r@) == blinding_matrix(scalar_values(a1@)),
        forall|j: int| 0 <= j < r@.len() ==> (#[trigger] r@[j])@.len() == 2,
{
    let ghost spec_a = blinding_matrix(scalar_values(a1@));
    let mut r: Vec<Vec<Scalar>> = Vec::new();
    let mut j: usize = 0;
    while j < a1.len()
        invariant
            spec_a == blinding_matrix(scalar_values(a1@)),
            0 <= j <= a1@.len(),
            r@.len() == j,
            forall|jj: int| 0 <= jj < j ==> scalar_values((#[trigger] r@[jj])@) =~= spec_a[jj],
            forall|jj: int| 0 <= jj < j ==> (#[trigger] r@[jj])@.len() == 2,
        decreases a1@.len() - j,
    {
        let mut row: Vec<Scalar> = Vec::new();
        row.push(Scalar::zero().sub(&a1[j]));
        row.push(a1[j]);
        r.push(row);
        j = j + 1;
    }
    assert(matrix_values(r@) =~= spec_a);
    r
}

/// The matrix `b` from the digits `s` of `l`.
fn indicator_rows(s: &Vec<usize>, l: Ghost<int>) -> (r: Vec<Vec<Scalar>>)
    requires
        forall|j: int| 0 <= j < s@.len() ==> s@[j] as int == digit(l@, j as nat),
    ensures
        matrix_values(r@) == indicator_matrix(l@, s@.len()),
        forall|j: int| 0 <= j < r@.len() ==> (#[trigger] r@[j])@.len() == 2,
{
    let ghost spec_b = indicator_matrix(l@, s@.len());
    let mut r: Vec<Vec<Scalar>> = Vec::new();
    let mut j: usize = 0;
    while j < s.len()
        invariant
            spec_b == indicator_matrix(l@, s@.len()),
            forall|j: int| 0 <= j < s@.len() ==> s@[j] as int == digit(l@, j as nat),
            0 <= j <= s@.len(),
            r@.len() == j,
            forall|jj: int| 0 <= jj < j ==> scalar_values((#[trigger] r@[jj])@) =~= spec_b[jj],
            forall|jj: int| 0 <= jj < j ==> (#[trigger] r@[jj])@.len() == 2,
        decreases s@.len() - j,
    {
        let mut row: Vec<Scalar> = Vec::new();
        row.push(util::delta(&s[j], &0));
        row.push(util::delta(&s[j], &1));
        proof {
            assert(s@[j as int] as int == digit(l@, j as nat));
        }
        r.push(row);
        j = j + 1;
    }
    assert(matrix_values(r@) =~= spec_b);
    r
}

/// The matrices `c` and `d` from `a` and `b`.
fn cross_and_square_rows(a: &Vec<Vec<Scalar>>, b: &Vec<Vec<Scalar>>) -> (r: (Vec<Vec<Scalar>>, Vec<Vec<Scalar>>))
    requires
        a@.len() == b@.len(),
        forall|j: int| 0 <= j < a@.len() ==> (#[trigger] a@[j])@.len() == 2,
        forall|j: int| 0 <= j < b@.len() ==> (#[trigger] b@[j])@.len() == 2,
        forall|j: int, i: int|
            0 <= j < b@.len() && 0 <= i < 2 ==> (#[trigger] b@[j]@[i])@ == 0 || b@[j]@[i]@ == 1,
    ensures
        matrix_values(r.0@) == cross_matrix(matrix_values(a@), matrix_values(b@)),
        matrix_values(r.1@) == square_matrix(matrix_values(a@)),
{
    let ghost av = matrix_values(a@);
    let ghost bv = matrix_values(b@);
    let ghost spec_c = cross_matrix(av, bv);
    let ghost spec_d = square_matrix(av);
    let ghost l = group_order();
    proof {
        lemma_group_order_gt_one();
    }
    let mut c: Vec<Vec<Scalar>> = Vec::new();
    let mut d: Vec<Vec<Scalar>> = Vec::new();
    let mut j: usize = 0;
    while j < a.len()
        invariant
            l == group_order(),
            l > 1,
            av == matrix_values(a@),
            bv == matrix_values(b@),
            spec_c == cross_matrix(av, bv),
            spec_d == square_matrix(av),
            a@.len() == b@.len(),
            forall|j: int| 0 <= j < a@.len() ==> (#[trigger] a@[j])@.len() == 2,
            forall|j: int| 0 <= j < b@.len() ==> (#[trigger] b@[j])@.len() == 2,
            forall|j: int, i: int|
                0 <= j < b@.len() && 0 <= i < 2 ==> (#[trigger] b@[j]@[i])@ == 0 || b@[j]@[i]@ == 1,
            0 <= j <= a@.len(),
            c@.len() == j,
            d@.len() == j,
            forall|jj: int| 0 <= jj < j ==> scalar_values((#[trigger] c@[jj])@) =~= spec_c[jj],
            forall|jj: int| 0 <= jj < j ==> scalar_values((#[trigger] d@[jj])@) =~= spec_d[jj],
        decreases a@.len() - j,
    {
        let mut crow: Vec<Scalar> = Vec::new();
        let mut drow: Vec<Scalar> = Vec::new();
        let mut i: usize = 0;
        while i < 2
            invariant
                l == group_order(),
                l > 1,
                av == matrix_values(a@),
                bv == matrix_values(b@),
                spec_c == cross_matrix(av, bv),
                spec_d == square_matrix(av),
                a@.len() == b@.len(),
                0 <= j < a@.len(),
                a@[j as int]@.len() == 2,
                b@[j as int]@.len() == 2,
                forall|i: int| 0 <= i < 2 ==> (#[trigger] b@[j as int]@[i])@ == 0 || b@[j as int]@[i]@ == 1,
                0 <= i <= 2,
                crow@.len() == i,
                drow@.len() == i,
                forall|ii: int| 0 <= ii < i ==> (#[trigger] crow@[ii])@ == spec_c[j as int][ii],
                forall|ii: int| 0 <= ii < i ==> (#[trigger] drow@[ii])@ == spec_d[j as int][ii],
            decreases 2 - i,
        {
            let x = a[j][i];
            let y = b[j][i];
            let t = Scalar::one().sub(&y).sub(&y);
            crow.push(x.mul(&t));
            drow.push(x.neg().mul(&x));
            proof {
                assert(av[j as int][i as int] == x@);
                assert(bv[j as int][i as int] == y@);
                assert(y@ == 0 || y@ == 1);
                lemma_small_mod(y@ as nat, l as nat);
                lemma_sub_mod_noop(1 - y@, y@, l);
                lemma_mul_mod_noop_right(x@, 1 - 2 * y@, l);
                lemma_mul_mod_noop_left(-x@, x@, l);
            }
            i = i + 1;
        }
        c.push(crow);
        d.push(drow);
        j = j + 1;
    }
    assert(matrix_values(c@) =~= spec_c);
    assert(matrix_values(d@) =~= spec_d);
    (c, d)
}

/// `2^m` leaves room for `m + 3`.
proof fn lemma_pow2_exceeds(m: nat)
    ensures
        m >= 3 ==> pow2(m) >= m + 3,
    decreases m,
{
    if m > 3 {
        lemma_pow2_exceeds((m - 1) as nat);
        lemma_pow2_unfold(m);
    } else if m == 3 {
        lemma2_to64();
    }
}

/// The coefficients of `index_poly(a, l, k, m)`, where `s` holds the `m` digits of `l`.
fn index_polynomial(a: &Vec<Vec<Scalar>>, s: &Vec<usize>, k: usize, l: Ghost<int>) -> (r: Vec<Scalar>)
    requires
        a@.len() == s@.len(),
        forall|j: int| 0 <= j < a@.len() ==> (#[trigger] a@[j])@.len() == 2,
        forall|j: int| 0 <= j < s@.len() ==> s@[j] as int == digit(l@, j as nat),
        (k as int) < pow2(s@.len()),
        s@.len() + 3 <= usize::MAX,
    ensures
        scalar_values(r@) == index_poly(matrix_values(a@), l@, k as int, s@.len() as int),
        r@.len() == s@.len() + 1,
{
    let ghost av = matrix_values(a@);
    let m = s.len();
    let bits = util::pad(&k, &m);
    let mut p: Vec<Scalar> = Vec::new();
    p.push(Scalar::one());
    assert(scalar_values(p@) =~= seq![1int]);
    let mut j: usize = 0;
    while j < m
        invariant
            av == matrix_values(a@),
            m == s@.len(),
            a@.len() == m,
            forall|j: int| 0 <= j < a@.len() ==> (#[trigger] a@[j])@.len() == 2,
            forall|j: int| 0 <= j < s@.len() ==> s@[j] as int == digit(l@, j as nat),
            bits@.len() == m,
            forall|jj: int| 0 <= jj < m ==> bits@[jj] as int == digit(k as int, jj as nat),
            m + 3 <= usize::MAX,
            0 <= j <= m,
            p@.len() == j + 1,
            scalar_values(p@) == index_poly(av, l@, k as int, j as int),
        decreases m - j,
    {
        let b = bits[j];
        proof {
            assert(bits@[j as int] as int == digit(k as int, j as nat));
            assert(s@[j as int] as int == digit(l@, j as nat));
        }
        let mut factor: Vec<Scalar> = Vec::new();
        factor.push(a[j][b]);
        factor.push(util::delta(&s[j], &b));
        let ghost old_p = scalar_values(p@);
        proof {
            assert(av[j as int][b as int] == a@[j as int]@[b as int]@);
            assert(scalar_values(factor@) =~= seq![
                av[j as int][digit(k as int, j as nat)],
                delta_value(digit(l@, j as nat), digit(k as int, j as nat)),
            ]);
        }
        p = util::convolve(p.as_slice(), factor.as_slice());
        proof {
            assert(scalar_values(p@) =~= poly_product(old_p, scalar_values(factor@)));
        }
        j = j + 1;
    }
    p
}

/// `sig` is the proof that `prove_with_nonces` makes from these inputs.
pub open spec fn proves(
    sig: Signature,
    ring: Seq<Seq<u8>>,
    msg: Seq<u8>,
    l: int,
    r: int,
    m: nat,
    n: ProofNonces,
) -> bool {
    let e = sig.a;
    let s = sig.z;
    let a = blinding_matrix(scalar_values(n.a@));
    let b = indicator_matrix(l, m);
    let rho = scalar_values(n.rho@);
    let polys = Seq::new(ring.len(), |k: int| index_poly(a, l, k, m as int));
    let x = challenge_of(ring, msg, e, m);
    &&& has_shape(sig, m)
    &&& e.J@ == key_image(r)
    &&& e.A@ == commitment(a, n.rA@)
    &&& e.B@ == commitment(b, n.rB@)
    &&& e.C@ == commitment(cross_matrix(a, b), n.rC@)
    &&& e.D@ == commitment(square_matrix(a), n.rD@)
    &&& forall|j: int| 0 <= j < m ==> (#[trigger] e.Y@[j])@ == point_scale(rho[j], e.J@)
    &&& forall|j: int|
        0 <= j < m ==> (#[trigger] e.X@[j])@ == digit_point(ring, polys, rho[j], j, ring.len() as int)
    &&& forall|j: int|
        0 <= j < m ==> (#[trigger] s.f@[j])@[0]@ == (delta_value(digit(l, j as nat), 1) * x + a[j][1])
            % group_order()
    &&& s.zA@ == (n.rA@ + x * n.rB@) % group_order()
    &&& s.zC@ == (x * n.rC@ + n.rD@) % group_order()
    &&& s.z@ == (r * pow(x, m) - rho_sum(rho, x, m as int)) % group_order()
}

/// The proof over the ring `M` of `2^m` keys that the signer knows `r`
/// with `M[l] = r*G`, bound to `message`, blinded with `nonces`.
pub fn prove_with_nonces(
    M: &[Point],
    l: &usize,
    r: &Scalar,
    m: &usize,
    message: &str,
    nonces: &ProofNonces,
) -> (sgn: Signature)
    requires
        M@.len() == pow2(*m as nat),
        *l < M@.len(),
        nonces.a@.len() == *m,
        nonces.rho@.len() == *m,
    ensures
        proves(sgn, point_views(M@), message.spec_bytes(), *l as int, r@, *m as nat, *nonces),
{
    let m = *m;
    let l = *l;
    let ghost ring = point_views(M@);
    let ghost L = group_order();
    proof {
        lemma_group_order_gt_one();
        lemma_pow2_exceeds(m as nat);
    }
    let G = label_point(71u8);
    let U = label_point(85u8);
    let J = U.scale(&r.invert());
    let a = blinding_rows(&nonces.a);
    let ghost av = matrix_values(a@);
    let A = util::pedersen_commitment(a.as_slice(), &nonces.rA);
    let s = util::pad(&l, &m);
    let b = indicator_rows(&s, Ghost(l as int));
    let ghost bv = matrix_values(b@);
    proof {
        assert forall|j: int, i: int| 0 <= j < b@.len() && 0 <= i < 2 implies (#[trigger] b@[j]@[i])@ == 0
            || b@[j]@[i]@ == 1 by {
            assert(bv.len() == b@.len());
            assert(bv == indicator_matrix(l as int, s@.len()));
            assert(bv[j] == scalar_values(b@[j]@));
            assert(bv[j][i] == b@[j]@[i]@);
            assert(bv[j][i] == delta_value(digit(l as int, j as nat), i));
        }
    }
    let B = util::pedersen_commitment(b.as_slice(), &nonces.rB);
    let (c, d) = cross_and_square_rows(&a, &b);
    let C = util::pedersen_commitment(c.as_slice(), &nonces.rC);
    let D = util::pedersen_commitment(d.as_slice(), &nonces.rD);
    // the polynomial of each ring index
    let N = M.len();
    let ghost polys_spec = Seq::new(ring.len(), |k: int| index_poly(av, l as int, k, m as int));
    let mut polys: Vec<Vec<Scalar>> = Vec::new();
    let mut k: usize = 0;
    while k < N
        invariant
            N == M@.len(),
            N == pow2(m as nat),
            ring == point_views(M@),
            av == matrix_values(a@),
            polys_spec == Seq::new(ring.len(), |k: int| index_poly(av, l as int, k, m as int)),
            a@.len() == m,
            s@.len() == m,
            forall|j: int| 0 <= j < a@.len() ==> (#[trigger] a@[j])@.len() == 2,
            forall|j: int| 0 <= j < s@.len() ==> s@[j] as int == digit(l as int, j as nat),
            m + 3 <= usize::MAX,
            0 <= k <= N,
            polys@.len() == k,
            forall|kk: int| 0 <= kk < k ==> scalar_values((#[trigger] polys@[kk])@) == polys_spec[kk],
            forall|kk: int| 0 <= kk < k ==> (#[trigger] polys@[kk])@.len() == m + 1,
        decreases N - k,
    {
        let p = index_polynomial(&a, &s, k, Ghost(l as int));
        polys.push(p);
        k = k + 1;
    }
    // the points X and Y of each digit
    let mut X: Vec<Point> = Vec::new();
    let mut Y: Vec<Point> = Vec::new();
    let ghost rho = scalar_values(nonces.rho@);
    let mut j: usize = 0;
    while j < m
        invariant
            N == M@.len(),
            ring == point_views(M@),
            rho == scalar_values(nonces.rho@),
            nonces.rho@.len() == m,
            polys@.len() == N,
            forall|kk: int| 0 <= kk < N ==> scalar_values((#[trigger] polys@[kk])@) == polys_spec[kk],
            forall|kk: int| 0 <= kk < N ==> (#[trigger] polys@[kk])@.len() == m + 1,
            0 <= j <= m,
            X@.len() == j,
            Y@.len() == j,
            forall|jj: int| 0 <= jj < j ==> (#[trigger] Y@[jj])@ == point_scale(rho[jj], J@),
            forall|jj: int|
                0 <= jj < j ==> (#[trigger] X@[jj])@ == digit_point(ring, polys_spec, rho[jj], jj, N as int),
            G@ == base_point(),
        decreases m - j,
    {
        Y.push(J.scale(&nonces.rho[j]));
        let mut acc = G.scale(&nonces.rho[j]);
        let mut k: usize = 0;
        while k < N
            invariant
                N == M@.len(),
                ring == point_views(M@),
                rho == scalar_values(nonces.rho@),
                nonces.rho@.len() == m,
                0 <= j < m,
                polys@.len() == N,
                forall|kk: int| 0 <= kk < N ==> scalar_values((#[trigger] polys@[kk])@) == polys_spec[kk],
                forall|kk: int| 0 <= kk < N ==> (#[trigger] polys@[kk])@.len() == m + 1,
                0 <= k <= N,
                acc@ == digit_point(ring, polys_spec, rho[j as int], j as int, k as int),
                G@ == base_point(),
            decreases N - k,
        {
            proof {
                assert(polys@[k as int]@.len() == m + 1);
                assert(scalar_values(polys@[k as int]@)[j as int] == polys_spec[k as int][j as int]);
            }
            acc = acc.add(&M[k].scale(&polys[k][j]));
            k = k + 1;
        }
        X.push(acc);
        j = j + 1;
    }
    let e = TriptychEllipticCurveState { J, A, B, C, D, X, Y };
    let t = build_transcript(M, message, &e, m);
    let x = Scalar::hash_from_bytes(t.as_slice());
    // the responses
    let mut f: Vec<Vec<Scalar>> = Vec::new();
    let mut j: usize = 0;
    while j < m
        invariant
            L == group_order(),
            L > 1,
            av == matrix_values(a@),
            av == blinding_matrix(scalar_values(nonces.a@)),
            a@.len() == m,
            s@.len() == m,
            forall|j: int| 0 <= j < a@.len() ==> (#[trigger] a@[j])@.len() == 2,
            forall|j: int| 0 <= j < s@.len() ==> s@[j] as int == digit(l as int, j as nat),
            0 <= j <= m,
            f@.len() == j,
            forall|jj: int| 0 <= jj < j ==> (#[trigger] f@[jj])@.len() == 1,
            forall|jj: int|
                0 <= jj < j ==> (#[trigger] f@[jj])@[0]@ == (delta_value(digit(l as int, jj as nat), 1) * x@
                    + av[jj][1]) % L,
        decreases m - j,
    {
        let dx = util::delta(&s[j], &1).mul(&x);
        let mut row: Vec<Scalar> = Vec::new();
        row.push(dx.add(&a[j][1]));
        proof {
            assert(s@[j as int] as int == digit(l as int, j as nat));
            assert(av[j as int][1] == a@[j as int]@[1]@);
            lemma_add_mod_noop_right(av[j as int][1], delta_value(digit(l as int, j as nat), 1) * x@, L);
        }
        f.push(row);
        j = j + 1;
    }
    let zA = nonces.rA.add(&x.mul(&nonces.rB));
    let zC = x.mul(&nonces.rC).add(&nonces.rD);
    proof {
        lemma_add_mod_noop_right(nonces.rA@, x@ * nonces.rB@, L);
        lemma_add_mod_noop_right(nonces.rD@, x@ * nonces.rC@, L);
    }
    let mut rs = Scalar::zero();
    let mut j: usize = 0;
    while j < m
        invariant
            L == group_order(),
            L > 1,
            rho == scalar_values(nonces.rho@),
            nonces.rho@.len() == m,
            0 <= j <= m,
            rs@ == rho_sum(rho, x@, j as int),
            0 <= rs@ < L,
        decreases m - j,
    {
        let w = util::power(&x, &j);
        let ghost prev = rs@;
        rs = rs.add(&nonces.rho[j].mul(&w));
        proof {
            lemma_mod_bound(prev + (rho[j as int] * (pow(x@, j as nat) % L)) % L, L);
        }
        j = j + 1;
    }
    let z = r.mul(&util::power(&x, &m)).sub(&rs);
    proof {
        lemma_mul_mod_noop_right(r@, pow(x@, m as nat), L);
        lemma_small_mod(rs@ as nat, L as nat);
        lemma_sub_mod_noop(r@ * pow(x@, m as nat), rs@, L);
    }
    let sgn = Signature { a: e, z: TriptychScalarState { f, zA, zC, z } };
    proof {
        assert(polys_spec == Seq::new(ring.len(), |k: int| index_poly(blinding_matrix(scalar_values(nonces.a@)), l as int, k, m as int)));
        assert(bv == indicator_matrix(l as int, m as nat));
    }
    sgn
}

/// `sig` is a proof for these inputs under some nonces over `m` digits.
pub open spec fn proves_for_some_nonces(
    sig: Signature,
    ring: Seq<Seq<u8>>,
    msg: Seq<u8>,
    l: int,
    r: int,
    m: nat,
) -> bool {
    exists|n: ProofNonces|
        n.a@.len() == m && n.rho@.len() == m && #[trigger] proves(sig, ring, msg, l, r, m, n)
}

/// The proof over the ring `M` of `2^m` keys that the signer knows `r`
/// with `M[l] = r*G`, bound to `message`, blinded with fresh random nonces.
pub fn base_prove(M: &[Point], l: &usize, r: &Scalar, m: &usize, message: &str) -> (sgn: Signature)
    requires
        M@.len() == pow2(*m as nat),
        *l < M@.len(),
    ensures
        proves_for_some_nonces(sgn, point_views(M@), message.spec_bytes(), *l as int, r@, *m as nat),
{
    let nonces = ProofNonces::random(*m);
    prove_with_nonces(M, l, r, m, message, &nonces)
}

/// How many draws `KeyGen` makes before it gives up on a zero private key.
pub const KEYGEN_DRAWS: usize = 8;

/// The key pair of the private scalar `r`: `r` with its public key `r*G`,
/// or `None` where `r` is zero, which has no key image.
pub fn key_pair_from(r: &Scalar) -> (res: Option<(Scalar, Point)>)
    ensures
        res is Some <==> r@ != 0,
        res matches Some(k) ==> k.0 == *r && k.1@ == point_scale(r@, base_point()),
{
    if r.is_zero() {
        None
    } else {
        let G = label_point(71u8);
        let pk = G.scale(r);
        Some((*r, pk))
    }
}

/// A fresh nonzero private key and its public key `r*G`: the key pair of
/// the first nonzero draw. After `KEYGEN_DRAWS` zero draws in a row the key
/// is reported as degenerate.
pub fn KeyGen() -> (r: Result<(Scalar, Point), Errors>)
    ensures
        r matches Ok(k) ==> k.1@ == point_scale(k.0@, base_point()) && 0 < k.0@ < group_order(),
        r matches Err(e) ==> e == Errors::ArithmeticDegenerate,
{
    let mut draws: usize = 0;
    while draws < KEYGEN_DRAWS
        invariant
            draws <= KEYGEN_DRAWS,
        decreases KEYGEN_DRAWS - draws,
    {
        let r = Scalar::random();
        match key_pair_from(&r) {
            Some(k) => {
                return Ok(k);
            },
            None => {},
        }
        draws = draws + 1;
    }
    Err(Errors::ArithmeticDegenerate)
}

/// Some power of two is `len`.
pub open spec fn ring_size_valid(len: nat) -> bool {
    exists|m: nat| #[trigger] pow2(m) == len
}

/// `l` is the first index of `ring` that holds `pk`.
pub open spec fn first_match(ring: Seq<Seq<u8>>, pk: Seq<u8>, l: int) -> bool {
    &&& 0 <= l < ring.len()
    &&& ring[l] == pk
    &&& forall|i: int| 0 <= i < l ==> ring[i] != pk
}

/// `sig` is a signature on `msg` over `ring` by the private key `x`: a proof
/// for the first ring member that is `x*G`.
pub open spec fn signed_by(sig: Signature, ring: Seq<Seq<u8>>, msg: Seq<u8>, x: int) -> bool {
    exists|m: nat, l: int|
        ring.len() == pow2(m) && first_match(ring, point_scale(x, base_point()), l)
            && #[trigger] proves_for_some_nonces(sig, ring, msg, l, x, m)
}

/// Signs `M` with the private key `x` over the ring `R`, whose length must
/// be a power of two and which must hold `x*G`.
pub fn Sign(x: &Scalar, M: &str, R: &[Point]) -> (r: Result<Signature, Errors>)
    ensures
        !ring_size_valid(R@.len()) ==> r == Err::<Signature, Errors>(Errors::RingSizeInvalid),
        ring_size_valid(R@.len()) && x@ == 0 ==> r == Err::<Signature, Errors>(Errors::ArithmeticDegenerate),
        ring_size_valid(R@.len()) && x@ != 0 && !point_views(R@).contains(point_scale(x@, base_point())) ==> r
            == Err::<Signature, Errors>(Errors::SignerNotInRing),
        ring_size_valid(R@.len()) && x@ != 0 && point_views(R@).contains(point_scale(x@, base_point())) ==> r
            is Ok,
        r matches Ok(sig) ==> signed_by(sig, point_views(R@), M.spec_bytes(), x@),
{
    let ghost ring = point_views(R@);
    let ghost pk_spec = point_scale(x@, base_point());
    let m = match ring_digits(R.len()) {
        Some(m) => m,
        None => {
            return Err(Errors::RingSizeInvalid);
        },
    };
    if x.is_zero() {
        return Err(Errors::ArithmeticDegenerate);
    }
    let G = label_point(71u8);
    let pk = G.scale(x);
    let mut i: usize = 0;
    while i < R.len()
        invariant
            ring == point_views(R@),
            pk@ == pk_spec,
            0 <= i <= R@.len(),
            forall|k: int| 0 <= k < i ==> ring[k] != pk_spec,
        ensures
            0 <= i <= R@.len(),
            forall|k: int| 0 <= k < i ==> ring[k] != pk_spec,
            i < R@.len() ==> ring[i as int] == pk_spec,
        decreases R@.len() - i,
    {
        if R[i].equals(&pk) {
            break;
        }
        i = i + 1;
    }
    if i == R.len() {
        proof {
            assert(!ring.contains(pk_spec)) by {
                if ring.contains(pk_spec) {
                    let k = choose|k: int| 0 <= k < ring.len() && ring[k] == pk_spec;
                    assert(ring[k] != pk_spec);
                }
            }
        }
        return Err(Errors::SignerNotInRing);
    }
    proof {
        assert(ring[i as int] == pk_spec);
        assert(first_match(ring, pk_spec, i as int));
    }
    let sgn = base_prove(R, &i, x, &m, M);
    proof {
        assert(proves_for_some_nonces(sgn, ring, M.spec_bytes(), i as int, x@, m as nat));
    }
    Ok(sgn)
}

/// Checks the signature `sgn` on `M` over the ring `R`.
pub fn Verify(sgn: &Signature, M: &str, R: &[Point]) -> (r: Result<(), Errors>)
    ensures
        !ring_size_valid(R@.len()) ==> r == Err::<(), Errors>(Errors::RingSizeInvalid),
        forall|m: nat|
            #[trigger] pow2(m) == R@.len() ==> (r.is_ok() == proof_valid(point_views(R@), M.spec_bytes(), *sgn, m)
                && (r.is_err() ==> r == Err::<(), Errors>(TriptychError))),
{
    match ring_digits(R.len()) {
        Some(m) => {
            let r = base_verify(R, sgn, &m, M);
            proof {
                assert forall|m2: nat| #[trigger] pow2(m2) == R@.len() implies m2 == m by {
                    if m2 < m {
                        lemma_pow2_strictly_increases(m2, m as nat);
                    } else if m2 > m {
                        lemma_pow2_strictly_increases(m as nat, m2);
                    }
                }
            }
            r
        },
        None => Err(Errors::RingSizeInvalid),
    }
}

/// Whether the two signatures carry the same key image, that is, were made
/// with the same private key.
pub fn Link(sgn_a: &Signature, sgn_b: &Signature) -> (r: bool)
    ensures
        r == (sgn_a.a.J@ == sgn_b.a.J@),
{
    sgn_a.a.J.equals(&sgn_b.a.J)
}

/// The key image of a signature is fixed by the private key alone: every
/// signature by `x`, over any ring and message, carries `x^-1 * U`.
pub proof fn lemma_key_image_determined(sig: Signature, ring: Seq<Seq<u8>>, msg: Seq<u8>, x: int)
    requires
        signed_by(sig, ring, msg, x),
    ensures
        sig.a.J@ == key_image(x),
{
    let (m, l) = choose|m: nat, l: int|
        ring.len() == pow2(m) && first_match(ring, point_scale(x, base_point()), l)
            && #[trigger] proves_for_some_nonces(sig, ring, msg, l, x, m);
    let n = choose|n: ProofNonces|
        n.a@.len() == m && n.rho@.len() == m && #[trigger] proves(sig, ring, msg, l, x, m, n);
}

/// Two signatures made with the same private key link, whatever their
/// rings and messages.
pub proof fn lemma_same_key_links(
    sig_a: Signature,
    ring_a: Seq<Seq<u8>>,
    msg_a: Seq<u8>,
    sig_b: Signature,
    ring_b: Seq<Seq<u8>>,
    msg_b: Seq<u8>,
    x: int,
)
    requires
        signed_by(sig_a, ring_a, msg_a, x),
        signed_by(sig_b, ring_b, msg_b, x),
    ensures
        sig_a.a.J@ == sig_b.a.J@,
{
    lemma_key_image_determined(sig_a, ring_a, msg_a, x);
    lemma_key_image_determined(sig_b, ring_b, msg_b, x);
}

/// A signature by `x` over `ring` has the shape that the ring's length
/// calls for, so that verifying it comes down to the four equations.
pub proof fn lemma_signature_shape(sig: Signature, ring: Seq<Seq<u8>>, msg: Seq<u8>, x: int, m: nat)
    requires
        signed_by(sig, ring, msg, x),
        ring.len() == pow2(m),
    ensures
        proof_valid(ring, msg, sig, m) == equations_hold(ring, msg, sig, m),
{
    let (m0, l) = choose|m0: nat, l: int|
        ring.len() == pow2(m0) && first_match(ring, point_scale(x, base_point()), l)
            && #[trigger] proves_for_some_nonces(sig, ring, msg, l, x, m0);
    let n = choose|n: ProofNonces|
        n.a@.len() == m0 && n.rho@.len() == m0 && #[trigger] proves(sig, ring, msg, l, x, m0, n);
    if m0 < m {
        lemma_pow2_strictly_increases(m0, m);
    } else if m0 > m {
        lemma_pow2_strictly_increases(m, m0);
    }
}

} // verus!
