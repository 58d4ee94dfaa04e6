//! The mathematical objects that the contracts of this crate speak about.

use vstd::prelude::*;

verus! {

/// Number of distinct values of a `u64`, that is 2^64.
pub open spec fn word_modulus() -> int {
    0x1_0000_0000_0000_0000
}

/// The Fibonacci numbers, counted from zero: 0, 1, 1, 2, 3, 5, ...
pub open spec fn fib(n: nat) -> nat
    decreases n,
{
    if n < 2 {
        n
    } else {
        fib((n - 1) as nat) + fib((n - 2) as nat)
    }
}

/// The 64-bit word that wrapping arithmetic leaves of the integer `x`.
pub open spec fn wrap(x: int) -> u64 {
    (x % word_modulus()) as u64
}

/// `fib(n)` as a 64-bit accumulator holds it: reduced modulo 2^64.
pub open spec fn wrapped_fib(n: nat) -> u64 {
    wrap(fib(n) as int)
}

/// The largest index whose Fibonacci number still fits in a `u64`.
pub open spec fn last_exact_index() -> nat {
    93
}

/// The first `len` terms in the one-based convention, which starts 1, 1, 2
/// and leaves the leading zero out: position `i` holds `wrapped_fib(i + 1)`.
pub open spec fn leading_terms(len: nat) -> Seq<u64> {
    Seq::new(len, |i: int| wrapped_fib((i + 1) as nat))
}

/// `r` times itself.
pub open spec fn square(r: int) -> int {
    r * r
}

/// Whether `m` is the square of a natural number.
pub open spec fn is_square(m: int) -> bool {
    exists|r: nat| square(r as int) == m
}

/// Whether `n` occurs in the Fibonacci sequence.
pub open spec fn is_fibonacci_number(n: nat) -> bool {
    exists|k: nat| fib(k) == n
}

/// `5n^2 + 4`, the first of the two numbers that the membership test looks at.
pub open spec fn upper_candidate(n: int) -> int {
    5 * n * n + 4
}

/// `5n^2 - 4`, the second of them.
pub open spec fn lower_candidate(n: int) -> int {
    5 * n * n - 4
}

/// The membership test as 64-bit wrapping arithmetic evaluates it: one of
/// `5n^2 + 4` and `5n^2 - 4`, each reduced to a word, is a perfect square.
pub open spec fn passes_square_test(n: u64) -> bool {
    is_square(wrap(upper_candidate(n as int)) as int) || is_square(
        wrap(lower_candidate(n as int)) as int,
    )
}

/// The largest `n` for which `5n^2 + 4` still fits in a `u64`.
pub open spec fn square_test_limit() -> nat {
    1_920_767_766
}

} // verus!
