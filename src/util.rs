//! Algebraic helpers: binary digits, Kronecker delta, exponentiation,
//! polynomial products and Pedersen commitments.
use vstd::prelude::*;
use vstd::arithmetic::div_mod::*;
use vstd::arithmetic::mul::*;
use vstd::string::StringSliceAdditionalSpecFns;
use vstd::arithmetic::power::*;
use vstd::arithmetic::power2::*;
use crate::point::{hash_point, point_scale, point_sum, Point};
use crate::scalar::{group_order, lemma_group_order_gt_one, Scalar};
use crate::series::{
    lemma_sum_ext, lemma_sum_mod, lemma_sum_scale, lemma_sum_shift, lemma_sum_swap, lemma_sum_tail,
    lemma_sum_zero, sum,
};

verus! {

/// Binary digit `j` of `k`.
pub open spec fn digit(k: int, j: nat) -> int {
    (k / pow2(j) as int) % 2
}

/// The binary digits of `k`, least significant first, `m` of them.
pub open spec fn digits(k: int, m: nat) -> Seq<int> {
    Seq::new(m, |j: int| digit(k, j as nat))
}

/// The integer that a digit sequence spells in base 2, least significant first.
pub open spec fn digits_value(d: Seq<int>) -> int
    decreases d.len(),
{
    if d.len() == 0 {
        0
    } else {
        d[0] + 2 * digits_value(d.drop_first())
    }
}

/// The values of a sequence of scalars.
pub open spec fn scalar_values(v: Seq<Scalar>) -> Seq<int> {
    v.map_values(|s: Scalar| s@)
}

/// The values of a matrix of scalars, row by row.
pub open spec fn matrix_values(d: Seq<Vec<Scalar>>) -> Seq<Seq<int>> {
    d.map_values(|row: Vec<Scalar>| scalar_values(row@))
}

/// The Kronecker delta as an integer.
pub open spec fn delta_value(value: int, i: int) -> int {
    if i == value {
        1
    } else {
        0
    }
}

/// The sum of the terms `x[i] * y[k - i]` over `i < n`: coefficient `k` of
/// the product of the two polynomials, when `n` is the length of `x`.
pub open spec fn conv_partial(x: Seq<int>, y: Seq<int>, k: int, n: int) -> int
    decreases n,
{
    if n <= 0 {
        0
    } else {
        conv_partial(x, y, k, n - 1) + if 0 <= k - (n - 1) < y.len() {
            x[n - 1] * y[k - (n - 1)]
        } else {
            0
        }
    }
}

/// Coefficient `k` of the product of the polynomials `x` and `y` in the scalar field.
pub open spec fn conv_coeff(x: Seq<int>, y: Seq<int>, k: int) -> int {
    conv_partial(x, y, k, x.len() as int) % group_order()
}

/// The number of coefficients of the product of polynomials with `a` and `b` coefficients.
pub open spec fn conv_len(a: nat, b: nat) -> nat {
    if a == 0 || b == 0 {
        0
    } else {
        (a + b - 1) as nat
    }
}

/// The product of the polynomials `x` and `y` in the scalar field.
pub open spec fn poly_product(x: Seq<int>, y: Seq<int>) -> Seq<int> {
    Seq::new(conv_len(x.len(), y.len()), |t: int| conv_coeff(x, y, t))
}

/// The decimal digits of `n`, as ASCII bytes.
pub open spec fn decimal(n: nat) -> Seq<u8>
    decreases n,
{
    if n < 10 {
        seq![(48 + n) as u8]
    } else {
        decimal(n / 10).push((48 + n % 10) as u8)
    }
}

/// The label that the commitment generator of row `i`, column `j` is hashed from.
pub open spec fn generator_label(i: nat, j: nat) -> Seq<u8> {
    seq![71u8] + decimal(i) + decimal(j)
}

/// The commitment generator of row `i`, column `j`.
pub open spec fn generator(i: nat, j: nat) -> Seq<u8> {
    hash_point(generator_label(i, j))
}

/// The generator that carries the blinding scalar of a commitment.
pub open spec fn blind_generator() -> Seq<u8> {
    hash_point(seq![72u8])
}

/// `acc` plus the first `j` terms of row `i` of a commitment.
pub open spec fn commit_row(acc: Seq<u8>, row: Seq<int>, i: nat, j: int) -> Seq<u8>
    decreases j,
{
    if j <= 0 {
        acc
    } else {
        point_sum(commit_row(acc, row, i, j - 1), point_scale(row[j - 1], generator(i, (j - 1) as nat)))
    }
}

/// The commitment to the first `i` rows of `m` under `blind`.
pub open spec fn commit_rows(m: Seq<Seq<int>>, blind: int, i: int) -> Seq<u8>
    decreases i,
{
    if i <= 0 {
        point_scale(blind, blind_generator())
    } else {
        commit_row(commit_rows(m, blind, i - 1), m[i - 1], (i - 1) as nat, m[i - 1].len() as int)
    }
}

/// The Pedersen commitment `blind*H + sum of m[i][j]*H_ij`, accumulated row by row.
pub open spec fn commitment(m: Seq<Seq<int>>, blind: int) -> Seq<u8> {
    commit_rows(m, blind, m.len() as int)
}

/// The `m` binary digits of `n`, least significant first.
pub fn pad(n: &usize, m: &usize) -> (r: Vec<usize>)
    requires
        (*n as int) < pow2(*m as nat),
    ensures
        r@.len() == *m,
        forall|j: int| 0 <= j < *m ==> r@[j] as int == digit(*n as int, j as nat),
{
    let mut r: Vec<usize> = Vec::new();
    let mut rest: usize = *n;
    let mut j: usize = 0;
    proof {
        lemma2_to64();
    }
    while j < *m
        invariant
            0 <= j <= *m,
            r@.len() == j,
            rest as int == (*n as int) / pow2(j as nat) as int,
            forall|i: int| 0 <= i < j ==> r@[i] as int == digit(*n as int, i as nat),
        decreases *m - j,
    {
        proof {
            lemma_pow2_pos(j as nat);
            lemma_pow2_unfold((j + 1) as nat);
            lemma_div_denominator(*n as int, pow2(j as nat) as int, 2);
        }
        r.push(rest % 2);
        rest = rest / 2;
        j = j + 1;
    }
    r
}

/// The field unity where `i == value`, else zero.
pub fn delta(value: &usize, i: &usize) -> (r: Scalar)
    ensures
        r@ == delta_value(*value as int, *i as int),
{
    if *i == *value {
        Scalar::one()
    } else {
        Scalar::zero()
    }
}

/// `base` raised to `exp`, by repeated squaring.
pub fn power(base_: &Scalar, exp_: &usize) -> (r: Scalar)
    ensures
        r@ == pow(base_@, *exp_ as nat) % group_order(),
{
    let ghost l = group_order();
    proof { lemma_group_order_gt_one(); }
    let mut answer = Scalar::one();
    let mut exp: usize = *exp_;
    let mut base = *base_;
    proof {
        lemma_mul_basics(pow(base_@, *exp_ as nat));
    }
    while exp > 0
        invariant
            l == group_order(),
            l > 1,
            0 <= answer@ < l,
            (answer@ * pow(base@, exp as nat)) % l == pow(base_@, *exp_ as nat) % l,
        decreases exp,
    {
        let ghost a0 = answer@;
        let ghost b0 = base@;
        let ghost e0 = exp as nat;
        if exp % 2 == 1 {
            answer = answer.mul(&base);
            exp = exp - 1;
            proof {
                lemma_pow_adds(b0, 1, exp as nat);
                lemma_pow1(b0);
                lemma_mul_is_associative(a0, b0, pow(b0, exp as nat));
                lemma_mul_mod_noop_left(a0 * b0, pow(b0, exp as nat), l);
                lemma_mod_bound(a0 * b0, l);
            }
        } else {
            base = base.mul(&base);
            exp = exp / 2;
            proof {
                lemma_pow_multiplies(b0, 2, exp as nat);
                lemma_square_is_pow2(b0);
                lemma_pow_mod_noop(b0 * b0, exp as nat, l);
                lemma_mul_mod_noop_right(a0, pow(b0 * b0, exp as nat), l);
                lemma_mul_mod_noop_right(a0, pow((b0 * b0) % l, exp as nat), l);
            }
        }
    }
    proof {
        lemma_pow0(base@);
        lemma_small_mod(answer@ as nat, l as nat);
    }
    answer
}

/// The product of the polynomials with coefficients `x` and `y`, lowest
/// degree first.
pub fn convolve(x: &[Scalar], y: &[Scalar]) -> (r: Vec<Scalar>)
    requires
        x@.len() + y@.len() <= usize::MAX,
    ensures
        r@.len() == conv_len(x@.len(), y@.len()),
        scalar_values(r@) == poly_product(scalar_values(x@), scalar_values(y@)),
        forall|k: int|
            0 <= k < r@.len() ==> #[trigger] r@[k]@ == conv_coeff(
                scalar_values(x@),
                scalar_values(y@),
                k,
            ),
{
    let ghost xv = scalar_values(x@);
    let ghost yv = scalar_values(y@);
    let ghost l = group_order();
    proof { lemma_group_order_gt_one(); }
    let mut r: Vec<Scalar> = Vec::new();
    if x.len() == 0 || y.len() == 0 {
        assert(scalar_values(r@) =~= poly_product(xv, yv));
        return r;
    }
    let len: usize = x.len() + y.len() - 1;
    let mut k: usize = 0;
    while k < len
        invariant
            l == group_order(),
            l > 1,
            xv == scalar_values(x@),
            yv == scalar_values(y@),
            len == x@.len() + y@.len() - 1,
            0 <= k <= len,
            r@.len() == k,
            forall|k2: int| 0 <= k2 < k ==> #[trigger] r@[k2]@ == conv_coeff(xv, yv, k2),
        decreases len - k,
    {
        let mut acc = Scalar::zero();
        let mut i: usize = 0;
        proof {
            lemma_small_mod(0, l as nat);
        }
        while i < x.len()
            invariant
                l == group_order(),
                l > 1,
                xv == scalar_values(x@),
                yv == scalar_values(y@),
                0 <= i <= x@.len(),
                acc@ == conv_partial(xv, yv, k as int, i as int) % l,
            decreases x@.len() - i,
        {
            let ghost a0 = acc@;
            if i <= k && k - i < y.len() {
                let t = x[i].mul(&y[k - i]);
                acc = acc.add(&t);
                proof {
                    lemma_add_mod_noop(conv_partial(xv, yv, k as int, i as int), xv[i as int] * yv[k - i], l);
                    lemma_mod_twice(conv_partial(xv, yv, k as int, i as int), l);
                    lemma_mod_twice(xv[i as int] * yv[k - i], l);
                }
            }
            i = i + 1;
        }
        r.push(acc);
        k = k + 1;
    }
    assert(scalar_values(r@) =~= poly_product(xv, yv));
    r
}

/// Appends the decimal digits of `n` to `out`.
fn push_decimal(out: &mut Vec<u8>, n: usize)
    ensures
        final(out)@ == old(out)@ + decimal(n as nat),
    decreases n,
{
    if n >= 10 {
        push_decimal(out, n / 10);
    }
    out.push((48 + n % 10) as u8);
    proof {
        if n < 10 {
            assert(old(out)@ + decimal(n as nat) =~= old(out)@.push((48 + n % 10) as u8));
        } else {
            assert(old(out)@ + decimal(n as nat) =~= (old(out)@ + decimal((n / 10) as nat)).push(
                (48 + n % 10) as u8,
            ));
        }
    }
}

/// The point hashed from the bytes of `data`.
pub fn hash_to_point(data: &str) -> (r: Point)
    ensures
        r@ == hash_point(data.spec_bytes()),
{
    Point::hash_from_bytes(data.as_bytes())
}

/// The commitment generator of row `i`, column `j`.
fn generator_point(i: usize, j: usize) -> (r: Point)
    ensures
        r@ == generator(i as nat, j as nat),
{
    let mut label: Vec<u8> = Vec::new();
    label.push(71u8);
    push_decimal(&mut label, i);
    push_decimal(&mut label, j);
    proof {
        assert(label@ =~= generator_label(i as nat, j as nat));
    }
    Point::hash_from_bytes(label.as_slice())
}

/// The Pedersen commitment to the matrix `data` under the blinding scalar `r`.
pub fn pedersen_commitment(data: &[Vec<Scalar>], r: &Scalar) -> (com: Point)
    ensures
        com@ == commitment(matrix_values(data@), r@),
{
    let ghost mv = matrix_values(data@);
    let blind_label: Vec<u8> = vec![72u8];
    proof {
        assert(blind_label@ =~= seq![72u8]);
    }
    let h = Point::hash_from_bytes(blind_label.as_slice());
    let mut com = h.scale(r);
    let mut i: usize = 0;
    while i < data.len()
        invariant
            mv == matrix_values(data@),
            0 <= i <= data@.len(),
            com@ == commit_rows(mv, r@, i as int),
        decreases data@.len() - i,
    {
        let row = &data[i];
        let ghost start = com@;
        let mut j: usize = 0;
        while j < row.len()
            invariant
                mv == matrix_values(data@),
                0 <= i < data@.len(),
                row == data@[i as int],
                0 <= j <= row@.len(),
                com@ == commit_row(start, mv[i as int], i as nat, j as int),
            decreases row@.len() - j,
        {
            let g = generator_point(i, j);
            let t = g.scale(&row[j]);
            com = com.add(&t);
            j = j + 1;
        }
        i = i + 1;
    }
    com
}

/// Reading back the `m` binary digits of `k < 2^m` gives `k`.
pub proof fn lemma_digits_round_trip(k: int, m: nat)
    requires
        0 <= k < pow2(m),
    ensures
        digits_value(digits(k, m)) == k,
    decreases m,
{
    lemma2_to64();
    if m == 0 {
        assert(digits(k, m) =~= Seq::<int>::empty());
    } else {
        let h = k / 2;
        lemma_pow2_unfold(m);
        lemma_div_is_ordered_by_denominator(k, 1, 2);
        assert(h < pow2((m - 1) as nat)) by {
            lemma_div_pos_is_pos(k, 2);
            lemma_fundamental_div_mod(k, 2);
        }
        lemma_digits_round_trip(h, (m - 1) as nat);
        assert forall|j: int| 0 <= j < m - 1 implies #[trigger] digits(k, m).drop_first()[j] == digits(
            h,
            (m - 1) as nat,
        )[j] by {
            lemma_pow2_pos(j as nat);
            lemma_pow2_unfold((j + 1) as nat);
            lemma_div_denominator(k, 2, pow2(j as nat) as int);
            assert(2 * pow2(j as nat) == pow2((j + 1) as nat));
        }
        assert(digits(k, m).drop_first() =~= digits(h, (m - 1) as nat));
        assert(digits(k, m)[0] == k % 2);
        lemma_fundamental_div_mod(k, 2);
    }
}

/// Any scalar to the power 0 is 1.
pub proof fn lemma_power_zero(b: int)
    ensures
        pow(b, 0) % group_order() == 1,
{
    lemma_group_order_gt_one();
    lemma_pow0(b);
    lemma_small_mod(1, group_order() as nat);
}

/// `b^(e1 + e2) = b^e1 * b^e2` in the scalar field.
pub proof fn lemma_power_adds(b: int, e1: nat, e2: nat)
    ensures
        pow(b, e1 + e2) % group_order() == ((pow(b, e1) % group_order()) * (pow(b, e2) % group_order()))
            % group_order(),
{
    lemma_group_order_gt_one();
    lemma_pow_adds(b, e1, e2);
    lemma_mul_mod_noop(pow(b, e1), pow(b, e2), group_order());
}

/// Appending `a` to `x` adds the one term in which it meets `y[k - x.len()]`.
proof fn lemma_conv_partial_push(y: Seq<int>, x: Seq<int>, a: int, k: int, n: int)
    requires
        0 <= n <= y.len(),
    ensures
        conv_partial(y, x.push(a), k, n) == conv_partial(y, x, k, n) + if 0 <= k - x.len() < n {
            y[k - x.len()] * a
        } else {
            0
        },
    decreases n,
{
    if n > 0 {
        lemma_conv_partial_push(y, x, a, k, n - 1);
        let t = k - (n - 1);
        if 0 <= t < x.len() + 1 {
            assert(x.push(a)[t] == if t < x.len() {
                x[t]
            } else {
                a
            });
        }
    }
}

/// The product of polynomials does not depend on their order.
pub proof fn lemma_convolution_commutes(x: Seq<int>, y: Seq<int>, k: int)
    ensures
        conv_coeff(x, y, k) == conv_coeff(y, x, k),
        conv_len(x.len(), y.len()) == conv_len(y.len(), x.len()),
{
    assert(conv_partial(x, y, k, x.len() as int) == conv_partial(y, x, k, y.len() as int)) by {
        lemma_conv_sum_commutes(x, y, k);
    }
}

proof fn lemma_conv_sum_commutes(x: Seq<int>, y: Seq<int>, k: int)
    ensures
        conv_partial(x, y, k, x.len() as int) == conv_partial(y, x, k, y.len() as int),
    decreases x.len(),
{
    if x.len() == 0 {
        lemma_conv_partial_zero(y, x, k, y.len() as int);
    } else {
        let x0 = x.drop_last();
        let a = x.last();
        assert(x0.push(a) =~= x);
        lemma_conv_sum_commutes(x0, y, k);
        lemma_conv_partial_push(y, x0, a, k, y.len() as int);
        lemma_conv_partial_prefix(x0, a, y, k, x0.len() as int);
    }
}

/// With `x` empty, no term of `conv_partial(y, x, k, n)` is present.
proof fn lemma_conv_partial_zero(y: Seq<int>, x: Seq<int>, k: int, n: int)
    requires
        x.len() == 0,
    ensures
        conv_partial(y, x, k, n) == 0,
    decreases n,
{
    if n > 0 {
        lemma_conv_partial_zero(y, x, k, n - 1);
    }
}

/// The first `n` terms do not see what is appended to `x`.
proof fn lemma_conv_partial_prefix(x: Seq<int>, a: int, y: Seq<int>, k: int, n: int)
    requires
        0 <= n <= x.len(),
    ensures
        conv_partial(x.push(a), y, k, n) == conv_partial(x, y, k, n),
    decreases n,
{
    if n > 0 {
        lemma_conv_partial_prefix(x, a, y, k, n - 1);
    }
}

/// Coefficient `j` of the polynomial `s`, zero past its ends.
pub open spec fn coeff(s: Seq<int>, j: int) -> int {
    if 0 <= j < s.len() {
        s[j]
    } else {
        0
    }
}

/// The terms `x[i] * y[k - i]` of coefficient `k` of a product.
pub open spec fn product_terms(x: Seq<int>, y: Seq<int>, k: int) -> spec_fn(int) -> int {
    |i: int| x[i] * coeff(y, k - i)
}

/// Coefficient `k` of the product of `x` and `y` over the integers.
pub open spec fn raw_coeff(x: Seq<int>, y: Seq<int>, k: int) -> int {
    sum(product_terms(x, y, k), x.len() as int)
}

proof fn lemma_conv_partial_is_sum(x: Seq<int>, y: Seq<int>, k: int, n: int)
    requires
        0 <= n <= x.len(),
    ensures
        conv_partial(x, y, k, n) == sum(product_terms(x, y, k), n),
    decreases n,
{
    if n > 0 {
        lemma_conv_partial_is_sum(x, y, k, n - 1);
    }
}

proof fn lemma_product_coeff(x: Seq<int>, y: Seq<int>, s: int)
    ensures
        coeff(poly_product(x, y), s) == raw_coeff(x, y, s) % group_order(),
{
    lemma_group_order_gt_one();
    let p = poly_product(x, y);
    if 0 <= s < p.len() {
        lemma_conv_partial_is_sum(x, y, s, x.len() as int);
    } else {
        assert forall|i: int| 0 <= i < x.len() implies #[trigger] product_terms(x, y, s)(i) == 0 by {
            assert(coeff(y, s - i) == 0);
        }
        lemma_sum_zero(product_terms(x, y, s), x.len() as int);
        lemma_small_mod(0, group_order() as nat);
    }
}

/// The terms of coefficient `k` of `(x*y)*z` before the sums are exchanged.
spec fn nested_terms(x: Seq<int>, y: Seq<int>, z: Seq<int>, k: int) -> spec_fn(int, int) -> int {
    |i: int, t: int| coeff(z, k - t) * (x[i] * coeff(y, t - i))
}

/// The terms of coefficient `k - i` of `y*z`, by the power of `y`.
spec fn shifted_terms(y: Seq<int>, z: Seq<int>, k: int, i: int) -> spec_fn(int) -> int {
    |j: int| coeff(y, j) * coeff(z, k - i - j)
}

/// Coefficient `k` of `(x*y)*z` over the integers, with the inner sum outside.
proof fn lemma_outer_product(x: Seq<int>, y: Seq<int>, z: Seq<int>, k: int)
    requires
        x.len() > 0,
        y.len() > 0,
    ensures
        sum(|t: int| raw_coeff(x, y, t) * coeff(z, k - t), conv_len(x.len(), y.len()) as int) == sum(
            |i: int| x[i] * raw_coeff(y, z, k - i),
            x.len() as int,
        ),
{
    let nx = x.len() as int;
    let ny = y.len() as int;
    let np = conv_len(x.len(), y.len()) as int;
    let g = nested_terms(x, y, z, k);
    assert forall|t: int| 0 <= t < np implies raw_coeff(x, y, t) * coeff(z, k - t) == sum(
        |i: int| g(i, t),
        nx,
    ) by {
        lemma_sum_scale(product_terms(x, y, t), coeff(z, k - t), nx);
        lemma_mul_is_commutative(raw_coeff(x, y, t), coeff(z, k - t));
        lemma_sum_ext(|i: int| coeff(z, k - t) * product_terms(x, y, t)(i), |i: int| g(i, t), nx);
    }
    lemma_sum_ext(|t: int| raw_coeff(x, y, t) * coeff(z, k - t), |t: int| sum(|i: int| g(i, t), nx), np);
    lemma_sum_swap(g, nx, np);
    assert forall|i: int| 0 <= i < nx implies sum(|t: int| g(i, t), np) == x[i] * raw_coeff(y, z, k - i) by {
        let h = shifted_terms(y, z, k, i);
        assert forall|t: int| 0 <= t < np implies #[trigger] g(i, t) == x[i] * h(t - i) by {
            assert(k - i - (t - i) == k - t);
            lemma_mul_is_associative(coeff(z, k - t), x[i], coeff(y, t - i));
            lemma_mul_is_commutative(coeff(z, k - t), x[i]);
            lemma_mul_is_associative(x[i], coeff(z, k - t), coeff(y, t - i));
            lemma_mul_is_commutative(coeff(z, k - t), coeff(y, t - i));
        }
        lemma_sum_ext(|t: int| g(i, t), |t: int| x[i] * h(t - i), np);
        lemma_sum_scale(|t: int| h(t - i), x[i], np);
        lemma_sum_ext(|t: int| x[i] * h(t - i), |t: int| x[i] * (|t: int| h(t - i))(t), np);
        assert forall|j: int| j < 0 implies #[trigger] h(j) == 0 by {
            assert(coeff(y, j) == 0);
        }
        lemma_sum_shift(h, i, np);
        lemma_sum_ext(|t: int| (|t: int| h(t - i))(t), |t: int| h(t - i), np);
        assert forall|j: int| j >= ny implies #[trigger] h(j) == 0 by {
            assert(coeff(y, j) == 0);
        }
        lemma_sum_tail(h, ny, np - i);
        lemma_sum_ext(h, product_terms(y, z, k - i), ny);
    }
    lemma_sum_ext(|i: int| sum(|t: int| g(i, t), np), |i: int| x[i] * raw_coeff(y, z, k - i), nx);
}

/// The product of polynomials does not depend on how three of them are grouped.
pub proof fn lemma_convolution_associates(x: Seq<int>, y: Seq<int>, z: Seq<int>, k: int)
    ensures
        conv_len(conv_len(x.len(), y.len()), z.len()) == conv_len(x.len(), conv_len(y.len(), z.len())),
        0 <= k < conv_len(conv_len(x.len(), y.len()), z.len()) ==> conv_coeff(poly_product(x, y), z, k)
            == conv_coeff(x, poly_product(y, z), k),
{
    if 0 <= k < conv_len(conv_len(x.len(), y.len()), z.len()) {
        lemma_group_order_gt_one();
        let l = group_order();
        let p = poly_product(x, y);
        let q = poly_product(y, z);
        let nx = x.len() as int;
        let np = p.len() as int;
        // the left side, reduced coefficients first
        lemma_conv_partial_is_sum(p, z, k, np);
        assert forall|t: int| 0 <= t < np implies #[trigger] product_terms(p, z, k)(t) == (raw_coeff(x, y, t)
            % l) * coeff(z, k - t) by {
            lemma_product_coeff(x, y, t);
        }
        lemma_sum_ext(product_terms(p, z, k), |t: int| (raw_coeff(x, y, t) % l) * coeff(z, k - t), np);
        lemma_sum_mod(|t: int| raw_coeff(x, y, t), |t: int| coeff(z, k - t), l, np);
        lemma_sum_ext(
            |t: int| ((|t: int| raw_coeff(x, y, t))(t) % l) * (|t: int| coeff(z, k - t))(t),
            |t: int| (raw_coeff(x, y, t) % l) * coeff(z, k - t),
            np,
        );
        lemma_sum_ext(
            |t: int| (|t: int| raw_coeff(x, y, t))(t) * (|t: int| coeff(z, k - t))(t),
            |t: int| raw_coeff(x, y, t) * coeff(z, k - t),
            np,
        );
        lemma_outer_product(x, y, z, k);
        // the right side
        lemma_conv_partial_is_sum(x, q, k, nx);
        assert forall|i: int| 0 <= i < nx implies #[trigger] product_terms(x, q, k)(i) == (raw_coeff(y, z, k - i)
            % l) * x[i] by {
            lemma_product_coeff(y, z, k - i);
            lemma_mul_is_commutative(x[i], raw_coeff(y, z, k - i) % l);
        }
        lemma_sum_ext(product_terms(x, q, k), |i: int| (raw_coeff(y, z, k - i) % l) * x[i], nx);
        lemma_sum_mod(|i: int| raw_coeff(y, z, k - i), |i: int| x[i], l, nx);
        lemma_sum_ext(
            |i: int| ((|i: int| raw_coeff(y, z, k - i))(i) % l) * (|i: int| x[i])(i),
            |i: int| (raw_coeff(y, z, k - i) % l) * x[i],
            nx,
        );
        assert forall|i: int| 0 <= i < nx implies (|i: int| raw_coeff(y, z, k - i))(i) * (|i: int| x[i])(i)
            == x[i] * raw_coeff(y, z, k - i) by {
            lemma_mul_is_commutative(x[i], raw_coeff(y, z, k - i));
        }
        lemma_sum_ext(
            |i: int| (|i: int| raw_coeff(y, z, k - i))(i) * (|i: int| x[i])(i),
            |i: int| x[i] * raw_coeff(y, z, k - i),
            nx,
        );
    }
}

/// Multiplying polynomials is commutative: `x*y` and `y*x` have the same
/// coefficients.
pub proof fn lemma_poly_product_commutes(x: Seq<int>, y: Seq<int>)
    ensures
        poly_product(x, y) == poly_product(y, x),
{
    assert forall|k: int| 0 <= k < poly_product(x, y).len() implies #[trigger] poly_product(x, y)[k]
        == poly_product(y, x)[k] by {
        lemma_convolution_commutes(x, y, k);
    }
    lemma_convolution_commutes(x, y, 0);
    assert(poly_product(x, y) =~= poly_product(y, x));
}

/// Multiplying polynomials is associative: `(x*y)*z` and `x*(y*z)` have the
/// same coefficients.
pub proof fn lemma_poly_product_associates(x: Seq<int>, y: Seq<int>, z: Seq<int>)
    ensures
        poly_product(poly_product(x, y), z) == poly_product(x, poly_product(y, z)),
{
    assert forall|k: int| 0 <= k < poly_product(poly_product(x, y), z).len() implies #[trigger] poly_product(
        poly_product(x, y),
        z,
    )[k] == poly_product(x, poly_product(y, z))[k] by {
        lemma_convolution_associates(x, y, z, k);
    }
    lemma_convolution_associates(x, y, z, 0);
    assert(poly_product(poly_product(x, y), z) =~= poly_product(x, poly_product(y, z)));
}

} // verus!
