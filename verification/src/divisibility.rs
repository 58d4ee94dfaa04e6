//! How often two divides a Fibonacci number.
//!
//! A power of two that divides `fib(n)` forces a power of two, only four
//! times smaller, to divide the index `n`. The terms that a 64-bit word can
//! index are therefore never multiples of 2^64: the wrapped sequence has no
//! zero but the one it starts with.

use vstd::prelude::*;
use vstd::arithmetic::div_mod::{lemma_mod_breakdown, lemma_mul_mod_noop, lemma_small_mod};
use vstd::arithmetic::power2::{
    lemma2_to64, lemma2_to64_rest, lemma_pow2_pos, lemma_pow2_unfold, pow2,
};
use crate::model::{fib, word_modulus, wrapped_fib};
use crate::theory::{lemma_fib_doubling, lemma_fib_step, lemma_first_terms};

verus! {

/// The remainders of the Fibonacci numbers modulo 8, which repeat with
/// period 12.
pub open spec fn residue_mod_8(n: nat) -> int {
    let i = n % 12;
    if i == 0 {
        0
    } else if i == 1 || i == 2 || i == 11 {
        1
    } else if i == 3 || i == 9 {
        2
    } else if i == 4 {
        3
    } else if i == 5 || i == 7 || i == 8 {
        5
    } else if i == 6 {
        0
    } else {
        7
    }
}

/// `fib(m) + 2 * fib(m - 1)`, the factor by which `fib(2m)` exceeds `fib(m)`.
pub open spec fn companion(m: nat) -> nat
    recommends
        m >= 1,
{
    fib(m) + 2 * fib((m - 1) as nat)
}

/// The Fibonacci numbers modulo 8 follow the table.
pub proof fn lemma_fib_mod_8(n: nat)
    ensures
        fib(n) % 8 == residue_mod_8(n),
    decreases n,
{
    lemma_first_terms();
    if n >= 2 {
        lemma_fib_mod_8((n - 1) as nat);
        lemma_fib_mod_8((n - 2) as nat);
        lemma_fib_step((n - 2) as nat);
    }
}

/// A term with twice the index is the term times its companion.
pub proof fn lemma_fib_double_index(m: nat)
    requires
        m >= 1,
    ensures
        fib(2 * m) == fib(m) * companion(m),
{
    lemma_fib_doubling((m - 1) as nat);
}

/// Two divides `x` as often as it divides `x / 2`, and once more.
pub proof fn lemma_halve(x: nat, e: nat)
    requires
        x % 2 == 0,
    ensures
        x % pow2(e + 1) == 0 <==> (x / 2) % pow2(e) == 0,
{
    lemma_pow2_unfold(e + 1);
    lemma_pow2_pos(e);
    lemma_mod_breakdown(x as int, 2, pow2(e) as int);
}

/// What a power of two divides, every smaller power of two divides.
pub proof fn lemma_smaller_power_divides(x: nat, e: nat, d: nat)
    requires
        d <= e,
        x % pow2(e) == 0,
    ensures
        x % pow2(d) == 0,
    decreases e,
{
    lemma2_to64();
    if d == 0 {
    } else {
        lemma_pow2_unfold(e);
        lemma_pow2_pos((e - 1) as nat);
        lemma_mod_breakdown(x as int, 2, pow2((e - 1) as nat) as int);
        lemma_halve(x, (e - 1) as nat);
        lemma_smaller_power_divides(x / 2, (e - 1) as nat, (d - 1) as nat);
        lemma_halve(x, (d - 1) as nat);
    }
}

/// A power of two that divides a product with an odd factor divides the other
/// factor.
pub proof fn lemma_odd_factor_drops(x: nat, y: nat, e: nat)
    requires
        y % 2 == 1,
        (x * y) % pow2(e) == 0,
    ensures
        x % pow2(e) == 0,
    decreases e,
{
    lemma2_to64();
    if e > 0 {
        let d = (e - 1) as nat;
        lemma_smaller_power_divides(x * y, e, 1);
        lemma_mul_mod_noop(x as int, y as int, 2);
        assert(x % 2 == 0) by (nonlinear_arith)
            requires
                ((x % 2) * (y % 2)) % 2 == 0,
                y % 2 == 1,
                0 <= x % 2 < 2,
        ;
        let h = x / 2;
        assert(x * y == 2 * (h * y) && (x * y) / 2 == h * y) by (nonlinear_arith)
            requires
                x == 2 * h,
        ;
        lemma_halve(x * y, d);
        lemma_odd_factor_drops(h, y, d);
        lemma_halve(x, d);
    }
}

/// A power of two that divides a product divides the first factor up to as
/// many twos as the second factor can hold: none if it is odd, one if it is
/// twice an odd number.
pub proof fn lemma_nearly_odd_factor_drops(x: nat, y: nat, e: nat)
    requires
        y % 4 != 0,
        (x * y) % pow2(e + 1) == 0,
    ensures
        x % pow2(e) == 0,
{
    if y % 2 == 1 {
        lemma_odd_factor_drops(x, y, e + 1);
        lemma_smaller_power_divides(x, e + 1, e);
    } else {
        let h = y / 2;
        assert(x * y == 2 * (x * h) && (x * y) / 2 == x * h) by (nonlinear_arith)
            requires
                y == 2 * h,
        ;
        lemma_halve(x * y, e);
        lemma_odd_factor_drops(x, h, e);
    }
}

/// If 2^(e+3) divides `fib(n)`, then 2^(e+1) divides `n`.
pub proof fn lemma_twos_in_index(n: nat, e: nat)
    requires
        n >= 1,
        fib(n) % pow2(e + 3) == 0,
    ensures
        n % pow2(e + 1) == 0,
    decreases e,
{
    lemma2_to64();
    lemma_fib_mod_8(n);
    if e == 0 {
    } else {
        let d = (e - 1) as nat;
        lemma_smaller_power_divides(fib(n), e + 3, d + 3);
        lemma_twos_in_index(n, d);
        lemma_smaller_power_divides(n, d + 1, 1);
        let m = n / 2;
        lemma_fib_double_index(m);
        lemma_fib_mod_8(m);
        lemma_fib_mod_8((m - 1) as nat);
        let f = fib(m);
        let c = companion(m);
        assert(c % 8 != 0);
        if m % 2 == 1 {
            // the two factors hold three twos at most
            assert(f % 4 != 0);
            lemma_smaller_power_divides(f * c, e + 3, 4);
            assert(c * f == f * c) by (nonlinear_arith);
            lemma_nearly_odd_factor_drops(c, f, 3);
            assert(false);
        } else {
            assert(c % 4 != 0);
            lemma_nearly_odd_factor_drops(f, c, e + 2);
            lemma_twos_in_index(m, d);
            lemma_halve(n, e);
        }
    }
}

/// No term with an index between 1 and 2^62 is a multiple of 2^64: in that
/// range the wrapped sequence is never zero.
pub proof fn lemma_wrapped_terms_are_nonzero(n: nat)
    requires
        1 <= n < 0x4000_0000_0000_0000,
    ensures
        wrapped_fib(n) != 0,
{
    lemma2_to64();
    lemma2_to64_rest();
    assert(word_modulus() == pow2(64));
    if fib(n) % pow2(64) == 0 {
        lemma_twos_in_index(n, 61);
        assert(n % pow2(62) == 0);
        lemma_small_mod(n, pow2(62));
    }
}

} // verus!
