//! Finite sums of integer sequences and the rearrangements that
//! polynomial products need.
use vstd::prelude::*;
use vstd::arithmetic::div_mod::*;
use vstd::arithmetic::mul::*;

verus! {

/// `f(0) + f(1) + ... + f(n - 1)`.
pub open spec fn sum(f: spec_fn(int) -> int, n: int) -> int
    decreases n,
{
    if n <= 0 {
        0
    } else {
        sum(f, n - 1) + f(n - 1)
    }
}

pub proof fn lemma_sum_ext(f: spec_fn(int) -> int, g: spec_fn(int) -> int, n: int)
    requires
        forall|i: int| 0 <= i < n ==> #[trigger] f(i) == g(i),
    ensures
        sum(f, n) == sum(g, n),
    decreases n,
{
    if n > 0 {
        lemma_sum_ext(f, g, n - 1);
    }
}

pub proof fn lemma_sum_zero(f: spec_fn(int) -> int, n: int)
    requires
        forall|i: int| 0 <= i < n ==> #[trigger] f(i) == 0,
    ensures
        sum(f, n) == 0,
    decreases n,
{
    if n > 0 {
        lemma_sum_zero(f, n - 1);
    }
}

pub proof fn lemma_sum_scale(f: spec_fn(int) -> int, a: int, n: int)
    ensures
        sum(|i: int| a * f(i), n) == a * sum(f, n),
    decreases n,
{
    if n > 0 {
        lemma_sum_scale(f, a, n - 1);
        lemma_mul_is_distributive_add(a, sum(f, n - 1), f(n - 1));
    }
}

pub proof fn lemma_sum_add(f: spec_fn(int) -> int, g: spec_fn(int) -> int, n: int)
    ensures
        sum(|i: int| f(i) + g(i), n) == sum(f, n) + sum(g, n),
    decreases n,
{
    if n > 0 {
        lemma_sum_add(f, g, n - 1);
    }
}

/// The order of a finite double sum does not matter.
pub proof fn lemma_sum_swap(g: spec_fn(int, int) -> int, n: int, m: int)
    ensures
        sum(|i: int| sum(|t: int| g(i, t), m), n) == sum(|t: int| sum(|i: int| g(i, t), n), m),
    decreases n,
{
    if n > 0 {
        lemma_sum_swap(g, n - 1, m);
        let before = |t: int| sum(|i: int| g(i, t), n - 1);
        let last = |t: int| g(n - 1, t);
        lemma_sum_add(before, last, m);
        lemma_sum_ext(|t: int| before(t) + last(t), |t: int| sum(|i: int| g(i, t), n), m);
        lemma_sum_ext(|t: int| g(n - 1, t), |t: int| g(n - 1, t), m);
    } else {
        lemma_sum_zero(|t: int| sum(|i: int| g(i, t), n), m);
    }
}

/// Reducing each term's first factor modulo `d` does not change the sum modulo `d`.
pub proof fn lemma_sum_mod(f: spec_fn(int) -> int, c: spec_fn(int) -> int, d: int, n: int)
    requires
        d > 0,
    ensures
        sum(|i: int| (f(i) % d) * c(i), n) % d == sum(|i: int| f(i) * c(i), n) % d,
    decreases n,
{
    if n > 0 {
        lemma_sum_mod(f, c, d, n - 1);
        let a = sum(|i: int| (f(i) % d) * c(i), n - 1);
        let b = sum(|i: int| f(i) * c(i), n - 1);
        lemma_add_mod_noop(a, (f(n - 1) % d) * c(n - 1), d);
        lemma_add_mod_noop(b, f(n - 1) * c(n - 1), d);
        lemma_mul_mod_noop_left(f(n - 1), c(n - 1), d);
    }
}

/// Shifting the index by `i` where `h` vanishes below 0.
pub proof fn lemma_sum_shift(h: spec_fn(int) -> int, i: int, n: int)
    requires
        0 <= i,
        forall|j: int| j < 0 ==> #[trigger] h(j) == 0,
    ensures
        sum(|t: int| h(t - i), n) == sum(h, n - i),
    decreases n,
{
    if n > 0 {
        lemma_sum_shift(h, i, n - 1);
    }
}

/// Terms past `len` where `h` vanishes add nothing.
pub proof fn lemma_sum_tail(h: spec_fn(int) -> int, len: int, n: int)
    requires
        0 <= len <= n,
        forall|j: int| j >= len ==> #[trigger] h(j) == 0,
    ensures
        sum(h, n) == sum(h, len),
    decreases n,
{
    if n > len {
        lemma_sum_tail(h, len, n - 1);
    }
}

} // verus!
