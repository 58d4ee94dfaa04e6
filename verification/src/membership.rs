//! Why a perfect-square test decides membership in the Fibonacci sequence.
//!
//! Neighbouring terms `a = fib(k)`, `b = fib(k + 1)` satisfy
//! `b^2 - a*b - a^2 = +1 or -1`, and every pair of naturals that satisfies it
//! is such a pair of neighbours. Multiplying by four and completing the
//! square turns the equation into `(2b - a)^2 = 5a^2 + 4 or 5a^2 - 4`.

use vstd::prelude::*;
use vstd::arithmetic::div_mod::lemma_small_mod;
use crate::model::{
    fib, is_fibonacci_number, is_square, lower_candidate, passes_square_test, square,
    square_test_limit, upper_candidate, word_modulus, wrap,
};
use crate::theory::{lemma_fib_monotonic, lemma_fib_step, lemma_first_terms};

verus! {

/// The quadratic form that neighbouring Fibonacci numbers keep at +1 or -1.
pub open spec fn neighbour_form(a: int, b: int) -> int {
    b * b - a * b - a * a
}

/// Squaring is strictly increasing on the naturals.
pub proof fn lemma_square_increasing(x: nat, y: nat)
    requires
        x < y,
    ensures
        square(x as int) < square(y as int),
{
    assert(x * x < y * y) by (nonlinear_arith)
        requires
            0 <= x < y,
    ;
}

/// A number that lies between two neighbouring squares is a square only if it
/// is the lower one.
pub proof fn lemma_root_decides(m: int, r: nat)
    requires
        square(r as int) <= m < square(r + 1 as int),
    ensures
        is_square(m) <==> square(r as int) == m,
{
    if is_square(m) {
        let k = choose|k: nat| square(k as int) == m;
        if k < r {
            lemma_square_increasing(k, r);
        } else if k > r {
            if k > r + 1 {
                lemma_square_increasing(r + 1, k);
            }
        }
    }
}

/// Moving one step along the sequence flips the sign of the form.
pub proof fn lemma_form_flips(a: int, b: int)
    ensures
        neighbour_form(b, a + b) == -neighbour_form(a, b),
{
    assert((a + b) * (a + b) - b * (a + b) - b * b == -(b * b - a * b - a * a))
        by (nonlinear_arith);
}

/// Neighbouring terms keep the form at +1 (even index) or -1 (odd index).
pub proof fn lemma_neighbours_keep_form(k: nat)
    ensures
        neighbour_form(fib(k) as int, fib(k + 1) as int) == (if k % 2 == 0 {
            1int
        } else {
            -1int
        }),
    decreases k,
{
    lemma_first_terms();
    if k == 0 {
        assert(neighbour_form(0, 1) == 1) by (nonlinear_arith);
    } else {
        let j = (k - 1) as nat;
        lemma_neighbours_keep_form(j);
        lemma_fib_step(j);
        lemma_form_flips(fib(j) as int, fib(j + 1) as int);
    }
}

/// Completing the square: four times the form is a square minus `5a^2`.
pub proof fn lemma_complete_square(a: int, b: int)
    ensures
        square(2 * b - a) == 5 * a * a + 4 * neighbour_form(a, b),
{
    assert((2 * b - a) * (2 * b - a) == 5 * a * a + 4 * (b * b - a * b - a * a))
        by (nonlinear_arith);
}

/// Every Fibonacci number passes the test: at an even index `5n^2 + 4` is a
/// square, at an odd index `5n^2 - 4` is.
pub proof fn lemma_fibonacci_gives_square(k: nat)
    ensures
        k % 2 == 0 ==> is_square(upper_candidate(fib(k) as int)),
        k % 2 == 1 ==> is_square(lower_candidate(fib(k) as int)),
{
    let a = fib(k) as int;
    let b = fib(k + 1) as int;
    lemma_fib_monotonic(k, k + 1);
    lemma_neighbours_keep_form(k);
    lemma_complete_square(a, b);
    let root = (2 * b - a) as nat;
    assert(square(root as int) == 5 * a * a + 4 * neighbour_form(a, b));
}

/// Every pair of naturals that keeps the form at +1 or -1, the second of them
/// positive, is a pair of neighbouring Fibonacci numbers. The result is the
/// index of the first.
pub proof fn lemma_form_gives_neighbours(a: nat, b: nat) -> (k: nat)
    requires
        b >= 1,
        neighbour_form(a as int, b as int) == 1 || neighbour_form(a as int, b as int) == -1,
    ensures
        fib(k) == a,
        fib(k + 1) == b,
    decreases a + b,
{
    lemma_first_terms();
    if a == 0 {
        assert(b == 1) by (nonlinear_arith)
            requires
                b >= 1,
                b * b - 0 * b - 0 * 0 == 1 || b * b - 0 * b - 0 * 0 == -1,
        ;
        0
    } else {
        assert(b >= a) by (nonlinear_arith)
            requires
                a >= 1,
                b >= 1,
                b * b - a * b - a * a >= -1,
        ;
        if b == a {
            assert(a == 1) by (nonlinear_arith)
                requires
                    a >= 1,
                    a * a - a * a - a * a >= -1,
            ;
            1
        } else {
            let rest = (b - a) as nat;
            lemma_form_flips(rest as int, a as int);
            let j = lemma_form_gives_neighbours(rest, a);
            lemma_fib_step(j);
            j + 1
        }
    }
}

/// A natural `n` for which `5n^2 + 4` or `5n^2 - 4` is the square of `m` is a
/// Fibonacci number.
pub proof fn lemma_square_gives_fibonacci(n: nat, m: nat)
    requires
        square(m as int) == upper_candidate(n as int) || square(m as int) == lower_candidate(
            n as int,
        ),
    ensures
        is_fibonacci_number(n),
{
    let sign: int = if square(m as int) == upper_candidate(n as int) {
        1
    } else {
        -1
    };
    // m and n are both even or both odd
    let p = m as int / 2;
    let q = n as int / 2;
    let i = m as int % 2;
    let j = n as int % 2;
    assert((2 * p + i) * (2 * p + i) == 4 * (p * p) + 4 * (p * i) + i * i) by (nonlinear_arith);
    assert((2 * q + j) * (2 * q + j) == 4 * (q * q) + 4 * (q * j) + j * j) by (nonlinear_arith);
    assert(5 * n * n == 5 * (n * n)) by (nonlinear_arith);
    assert(i * i == i && j * j == j) by (nonlinear_arith)
        requires
            0 <= i <= 1,
            0 <= j <= 1,
    ;
    assert(i == j);
    let b = (p + q + i) as nat;
    assert(2 * b == m + n);
    assert(4 * (b * b - n * b - n * n) == m * m - 5 * n * n) by (nonlinear_arith)
        requires
            2 * b == m + n,
    ;
    assert(neighbour_form(n as int, b as int) == sign);
    let k = lemma_form_gives_neighbours(n, b);
    assert(fib(k) == n);
}

/// A natural number is a Fibonacci number exactly if `5n^2 + 4` or `5n^2 - 4`
/// is a perfect square.
pub proof fn lemma_membership_by_squares(n: nat)
    ensures
        is_fibonacci_number(n) <==> (is_square(upper_candidate(n as int)) || is_square(
            lower_candidate(n as int),
        )),
{
    if is_fibonacci_number(n) {
        let k = choose|k: nat| fib(k) == n;
        lemma_fibonacci_gives_square(k);
    }
    if is_square(upper_candidate(n as int)) {
        let m = choose|m: nat| square(m as int) == upper_candidate(n as int);
        lemma_square_gives_fibonacci(n, m);
    }
    if is_square(lower_candidate(n as int)) {
        let m = choose|m: nat| square(m as int) == lower_candidate(n as int);
        lemma_square_gives_fibonacci(n, m);
    }
}

/// `5n^2 + 4` fits in a word up to the limit and no further.
pub proof fn lemma_square_test_limit()
    ensures
        upper_candidate(square_test_limit() as int) < word_modulus(),
        upper_candidate(square_test_limit() as int + 1) >= word_modulus(),
{
    assert(upper_candidate(1_920_767_766) == 18_446_744_054_523_153_784) by (nonlinear_arith);
    assert(upper_candidate(1_920_767_767) == 18_446_744_073_730_831_449) by (nonlinear_arith);
}

/// As long as `5n^2 + 4` fits in a word, the test in wrapping arithmetic
/// decides membership too.
pub proof fn lemma_square_test_decides(n: u64)
    requires
        n <= square_test_limit(),
    ensures
        upper_candidate(n as int) < word_modulus(),
        passes_square_test(n) <==> is_fibonacci_number(n as nat),
{
    assert(n * n <= 1_920_767_766 * 1_920_767_766) by (nonlinear_arith)
        requires
            0 <= n <= 1_920_767_766,
    ;
    assert(5 * n * n == 5 * (n * n)) by (nonlinear_arith);
    let upper = upper_candidate(n as int);
    let lower = lower_candidate(n as int);
    lemma_small_mod(upper as nat, word_modulus() as nat);
    lemma_membership_by_squares(n as nat);
    if n == 0 {
        lemma_first_terms();
        assert(fib(0) == 0);
        assert(square(2) == upper);
    } else {
        assert(n * n >= 1) by (nonlinear_arith)
            requires
                n >= 1,
        ;
        lemma_small_mod(lower as nat, word_modulus() as nat);
    }
}

} // verus!
