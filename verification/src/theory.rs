//! Facts about the Fibonacci numbers.

use vstd::prelude::*;
use vstd::arithmetic::div_mod::{
    lemma_add_mod_noop, lemma_mod_add_multiples_vanish, lemma_mod_sub_multiples_vanish,
    lemma_mul_mod_noop_left, lemma_small_mod, lemma_sub_mod_noop,
};
use vstd::wrapping::u64_specs::{wrapping_add, wrapping_mul, wrapping_sub};
use crate::model::{
    fib, last_exact_index, lower_candidate, upper_candidate, word_modulus, wrap, wrapped_fib,
};

verus! {

/// The sequence obeys its recurrence from the third term on.
pub proof fn lemma_fib_step(n: nat)
    ensures
        fib(n + 2) == fib(n + 1) + fib(n),
{
}

/// The first terms, as numbers and as 64-bit words.
pub proof fn lemma_first_terms()
    ensures
        fib(0) == 0,
        fib(1) == 1,
        fib(2) == 1,
        wrapped_fib(0) == 0,
        wrapped_fib(1) == 1,
        wrapped_fib(2) == 1,
{
    lemma_fib_step(0);
}

/// The sequence never decreases.
pub proof fn lemma_fib_monotonic(i: nat, j: nat)
    requires
        i <= j,
    ensures
        fib(i) <= fib(j),
    decreases j,
{
    if i < j {
        lemma_fib_monotonic(i, (j - 1) as nat);
    }
}

/// The addition law: a term far out is made of the terms around two nearer
/// indices.
pub proof fn lemma_fib_addition(m: nat, n: nat)
    ensures
        fib(m + n + 1) == fib(m + 1) * fib(n + 1) + fib(m) * fib(n),
    decreases n,
{
    lemma_first_terms();
    if n == 0 {
        assert(fib(m + 1) * 1 + fib(m) * 0 == fib(m + 1)) by (nonlinear_arith);
    } else if n == 1 {
        lemma_fib_step(m);
        assert(fib(m + 1) * 1 + fib(m) * 1 == fib(m + 1) + fib(m)) by (nonlinear_arith);
    } else {
        let p = (n - 1) as nat;
        let q = (n - 2) as nat;
        lemma_fib_addition(m, p);
        lemma_fib_addition(m, q);
        lemma_fib_step((m + q) as nat);
        lemma_fib_step(q);
        lemma_fib_step(p);
        let a = fib(m + 1) as int;
        let b = fib(m) as int;
        let x = fib(n) as int;
        let y = fib(p) as int;
        let z = fib(q) as int;
        assert((a * x + b * y) + (a * y + b * z) == a * (x + y) + b * (y + z))
            by (nonlinear_arith);
    }
}

/// The doubling laws, which reach index `2k` and `2k + 1` from `k` and
/// `k + 1`.
pub proof fn lemma_fib_doubling(k: nat)
    ensures
        fib(2 * k + 1) == fib(k + 1) * fib(k + 1) + fib(k) * fib(k),
        fib(2 * k + 2) == fib(k + 1) * (fib(k + 1) + 2 * fib(k)),
{
    lemma_fib_addition(k, k);
    lemma_fib_addition(k + 1, k);
    lemma_fib_step(k);
    let a = fib(k) as int;
    let b = fib(k + 1) as int;
    assert((a + b) * b + b * a == b * (b + 2 * a)) by (nonlinear_arith);
}

/// Where 64 bits stop being enough: `fib(93)` is the last term below 2^64.
pub proof fn lemma_fib_word_boundary()
    ensures
        fib(93) == 12200160415121876738,
        fib(94) == 19740274219868223167,
        fib(93) < word_modulus() <= fib(94),
{
    assert(fib(5) == 5 && fib(6) == 8) by {
        reveal_with_fuel(fib, 7);
    }
    lemma_fib_doubling_from(5, 5, 8);
    lemma_fib_doubling_from(11, 89, 144);
    lemma_fib_doubling_from(23, 28657, 46368);
    lemma_fib_step(46);
    lemma_fib_doubling_from(46, 1836311903, 2971215073);
    lemma_fib_step(92);
}

/// The doubling laws, for a pair of neighbouring terms whose values are known.
proof fn lemma_fib_doubling_from(k: nat, a: nat, b: nat)
    requires
        a == fib(k),
        b == fib(k + 1),
    ensures
        fib(2 * k + 1) == b * b + a * a,
        fib(2 * k + 2) == b * (b + 2 * a),
{
    lemma_fib_doubling(k);
}

/// Up to index 93 the reduced sequence is the sequence itself; from index 94
/// on every term is too large for a `u64`.
pub proof fn lemma_exact_range(n: nat)
    ensures
        n <= last_exact_index() ==> wrapped_fib(n) == fib(n),
        n > last_exact_index() ==> fib(n) >= word_modulus(),
{
    lemma_fib_word_boundary();
    if n <= 93 {
        lemma_fib_monotonic(n, 93);
        lemma_small_mod(fib(n), word_modulus() as nat);
    } else {
        lemma_fib_monotonic(94, n);
    }
}

/// The reduced sequence obeys the same recurrence modulo 2^64, which is what
/// a wrapping addition of two neighbouring reduced terms computes.
pub proof fn lemma_wrapped_step(n: nat)
    ensures
        wrapped_fib(n + 2) == (wrapped_fib(n + 1) + wrapped_fib(n)) % word_modulus(),
        wrapped_fib(n + 2) == wrapping_add(wrapped_fib(n + 1), wrapped_fib(n)),
        wrapped_fib(n + 2) == wrapping_add(wrapped_fib(n), wrapped_fib(n + 1)),
{
    let m = word_modulus();
    let a = fib(n + 1) as int;
    let b = fib(n) as int;
    lemma_fib_step(n);
    lemma_add_mod_noop(a, b, m);
    let s = a % m + b % m;
    if s >= m {
        lemma_mod_sub_multiples_vanish(s, m);
        lemma_small_mod((s - m) as nat, m as nat);
    } else {
        lemma_small_mod(s as nat, m as nat);
    }
}

/// Wrapping multiplication, addition and subtraction on words evaluate
/// `5n^2 + 4` and `5n^2 - 4` modulo 2^64.
pub proof fn lemma_wrapped_candidates(n: u64)
    ensures
        wrapping_add(wrapping_mul(wrapping_mul(5, n), n), 4) == wrap(upper_candidate(n as int)),
        wrapping_sub(wrapping_mul(wrapping_mul(5, n), n), 4) == wrap(lower_candidate(n as int)),
{
    let m = word_modulus();
    let first = wrapping_mul(5, n);
    let scaled = wrapping_mul(first, n);
    assert(first == (5 * n) % m);
    assert(scaled == (first * n) % m);
    lemma_mul_mod_noop_left(5 * n, n as int, m);
    assert(scaled == (5 * n * n) % m);
    lemma_small_mod(4, m as nat);
    lemma_add_mod_noop(5 * n * n, 4, m);
    lemma_sub_mod_noop(5 * n * n, 4, m);
    if scaled + 4 >= m {
        lemma_mod_sub_multiples_vanish(scaled + 4, m);
        lemma_small_mod((scaled + 4 - m) as nat, m as nat);
    } else {
        lemma_small_mod((scaled + 4) as nat, m as nat);
    }
    if scaled - 4 < 0 {
        lemma_mod_add_multiples_vanish(scaled - 4, m);
        lemma_small_mod((scaled - 4 + m) as nat, m as nat);
    } else {
        lemma_small_mod((scaled - 4) as nat, m as nat);
    }
}

} // verus!
