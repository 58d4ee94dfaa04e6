//! Executable Fibonacci functions.

use vstd::prelude::*;
use crate::divisibility::lemma_wrapped_terms_are_nonzero;
use crate::membership::{
    lemma_neighbours_keep_form, lemma_root_decides, lemma_square_increasing,
    lemma_square_test_decides, neighbour_form,
};
use crate::model::{
    fib, is_fibonacci_number, is_square, last_exact_index, leading_terms, passes_square_test,
    square, square_test_limit, wrapped_fib,
};
use crate::theory::{
    lemma_exact_range, lemma_first_terms, lemma_wrapped_candidates, lemma_wrapped_step,
};

verus! {

/// The first `n` Fibonacci numbers in the one-based convention: 1, 1, 2, 3,
/// 5, ... Terms are accumulated in 64-bit wrapping arithmetic.
pub fn sequence(n: usize) -> (terms: Vec<u64>)
    ensures
        terms@ == leading_terms(n as nat),
        forall|i: int| 0 <= i < n && i < last_exact_index() ==> terms@[i] == fib((i + 1) as nat),
{
    proof {
        lemma_first_terms();
    }
    if n == 0 {
        return vec![];
    }
    if n == 1 {
        return vec![1];
    }
    let mut terms: Vec<u64> = Vec::with_capacity(n);
    terms.push(1);
    terms.push(1);
    let mut i: usize = 2;
    while i < n
        invariant
            2 <= i <= n,
            terms@.len() == i,
            forall|j: int| 0 <= j < i ==> terms@[j] == wrapped_fib((j + 1) as nat),
        decreases n - i,
    {
        proof {
            lemma_wrapped_step((i - 1) as nat);
        }
        let next: u64 = terms[i - 1].wrapping_add(terms[i - 2]);
        terms.push(next);
        i = i + 1;
    }
    proof {
        assert forall|i: int| 0 <= i < n && i < last_exact_index() implies terms@[i] == fib(
            (i + 1) as nat,
        ) by {
            lemma_exact_range((i + 1) as nat);
        }
    }
    terms
}

/// The `n`-th Fibonacci number, counted from zero, in 64-bit wrapping
/// arithmetic.
pub fn nth(n: u32) -> (r: u64)
    ensures
        r == wrapped_fib(n as nat),
        n <= last_exact_index() ==> r == fib(n as nat),
        r == 0 <==> n == 0,
{
    proof {
        lemma_exact_range(n as nat);
        lemma_first_terms();
        if n >= 1 {
            lemma_wrapped_terms_are_nonzero(n as nat);
        }
    }
    if n <= 1 {
        return n as u64;
    }
    let mut a: u64 = 0;
    let mut b: u64 = 1;
    let mut i: u32 = 1;
    while i < n
        invariant
            1 <= i <= n,
            a == wrapped_fib((i - 1) as nat),
            b == wrapped_fib(i as nat),
        decreases n - i,
    {
        proof {
            lemma_wrapped_step((i - 1) as nat);
        }
        let temp: u64 = a.wrapping_add(b);
        a = b;
        b = temp;
        i = i + 1;
    }
    b
}

/// The quotient of two neighbouring terms, before any division is carried
/// out.
#[derive(Clone, Copy, Debug, PartialEq, Eq, Structural)]
pub enum Ratio {
    /// There is no term before the first: the quotient is not a number.
    NotANumber,
    /// The divisor is zero: the quotient is infinite.
    Infinity,
    /// `numerator / denominator`, with a denominator other than zero.
    Quotient { numerator: u64, denominator: u64 },
}

/// The quotient of the 64-bit terms at index `n` and `n - 1`.
pub open spec fn neighbour_ratio(n: nat) -> Ratio {
    if n == 0 {
        Ratio::NotANumber
    } else if wrapped_fib((n - 1) as nat) == 0 {
        Ratio::Infinity
    } else {
        Ratio::Quotient { numerator: wrapped_fib(n), denominator: wrapped_fib((n - 1) as nat) }
    }
}

/// The quotient of the terms at index `n` and `n - 1`, as `nth` gives them:
/// not a number at index 0, infinite where the earlier term is zero, and the
/// pair of terms otherwise. The division itself is left to the caller.
pub fn ratio_at(n: u32) -> (r: Ratio)
    ensures
        r == neighbour_ratio(n as nat),
        r == Ratio::NotANumber <==> n == 0,
        r == Ratio::Infinity <==> n == 1,
{
    if n == 0 {
        return Ratio::NotANumber;
    }
    let f_n: u64 = nth(n);
    let f_n_minus_1: u64 = nth(n - 1);
    if f_n_minus_1 == 0 {
        return Ratio::Infinity;
    }
    Ratio::Quotient { numerator: f_n, denominator: f_n_minus_1 }
}

/// Within the exact range the quotient is that of two true neighbouring
/// terms `p / q`, and these satisfy `p^2 - p*q - q^2 = +1 or -1`: the quotient
/// misses a root of `x^2 = x + 1` by no more than `1 / q^2` in the value of
/// the polynomial, alternately from above and from below.
pub proof fn lemma_ratio_of_exact_terms(n: nat)
    requires
        2 <= n <= last_exact_index(),
    ensures
        fib((n - 1) as nat) >= 1,
        neighbour_ratio(n) == (Ratio::Quotient {
            numerator: fib(n) as u64,
            denominator: fib((n - 1) as nat) as u64,
        }),
        neighbour_form(fib((n - 1) as nat) as int, fib(n) as int) == (if n % 2 == 0 {
            -1int
        } else {
            1int
        }),
{
    let k = (n - 1) as nat;
    lemma_exact_range(n);
    lemma_exact_range(k);
    lemma_wrapped_terms_are_nonzero(k);
    lemma_neighbours_keep_form(k);
}

/// The integer square root: the largest `r` whose square does not exceed `n`.
pub fn floor_sqrt(n: u64) -> (r: u64)
    ensures
        square(r as int) <= n < square(r + 1),
{
    let mut low: u64 = 0;
    let mut high: u64 = 0x1_0000_0000;
    while high - low > 1
        invariant
            low < high <= 0x1_0000_0000,
            square(low as int) <= n < square(high as int),
        decreases high - low,
    {
        let mid: u64 = low + (high - low) / 2;
        proof {
            lemma_square_increasing(mid as nat, 0x1_0000_0000);
        }
        if mid * mid <= n {
            low = mid;
        } else {
            high = mid;
        }
    }
    low
}

/// Whether `n` is the square of an integer.
pub fn is_perfect_square(n: u64) -> (r: bool)
    ensures
        r == is_square(n as int),
{
    let root: u64 = floor_sqrt(n);
    proof {
        lemma_root_decides(n as int, root as nat);
    }
    root * root == n
}

/// Whether `n` passes the Fibonacci membership test: `5n^2 + 4` or `5n^2 - 4`
/// is a perfect square. Both numbers are formed in 64-bit wrapping arithmetic,
/// so the answer is that of the mathematical test as long as `5n^2 + 4` fits
/// in a `u64`, which is up to `n = 1_920_767_766`.
pub fn is_fibonacci(n: u64) -> (r: bool)
    ensures
        r == passes_square_test(n),
        n <= square_test_limit() ==> r == is_fibonacci_number(n as nat),
{
    proof {
        lemma_wrapped_candidates(n);
        if n <= square_test_limit() {
            lemma_square_test_decides(n);
        }
    }
    let scaled: u64 = 5u64.wrapping_mul(n).wrapping_mul(n);
    let test1: u64 = scaled.wrapping_add(4);
    let test2: u64 = scaled.wrapping_sub(4);
    is_perfect_square(test1) || is_perfect_square(test2)
}

/// An endless producer of the Fibonacci numbers 0, 1, 1, 2, 3, ... in 64-bit
/// wrapping arithmetic. It holds the term to hand out next and the one after
/// it; the only way to start over is to make a new one.
pub struct FibonacciIterator {
    current: u64,
    next: u64,
    pulled: Ghost<nat>,
}

impl FibonacciIterator {
    /// How many terms have been handed out so far.
    pub closed spec fn position(&self) -> nat {
        self.pulled@
    }

    /// The two accumulators hold the terms at `position()` and
    /// `position() + 1`.
    pub closed spec fn wf(&self) -> bool {
        &&& self.current == wrapped_fib(self.pulled@)
        &&& self.next == wrapped_fib(self.pulled@ + 1)
    }

    #[verifier::type_invariant]
    spec fn accumulators_in_step(&self) -> bool {
        self.wf()
    }

    /// A producer that has handed out nothing yet.
    pub fn new() -> (it: Self)
        ensures
            it.wf(),
            it.position() == 0,
    {
        proof {
            lemma_first_terms();
        }
        FibonacciIterator { current: 0, next: 1, pulled: Ghost(0) }
    }

    /// Hands out the term at the present position and moves on by one. There
    /// is always a next term.
    pub fn next(&mut self) -> (term: Option<u64>)
        ensures
            term == Some(wrapped_fib(old(self).position())),
            final(self).wf(),
            final(self).position() == old(self).position() + 1,
    {
        proof {
            use_type_invariant(&*self);
            lemma_wrapped_step(self.pulled@);
        }
        let result: u64 = self.current;
        *self = FibonacciIterator {
            current: self.next,
            next: result.wrapping_add(self.next),
            pulled: Ghost(self.pulled@ + 1),
        };
        Some(result)
    }
}

/// A producer has no state but its position: two producers that have handed
/// out equally many terms are equal.
pub proof fn lemma_position_fixes_state(a: FibonacciIterator, b: FibonacciIterator)
    requires
        a.wf(),
        b.wf(),
        a.position() == b.position(),
    ensures
        a == b,
{
}

impl Default for FibonacciIterator {
    fn default() -> (it: Self)
        ensures
            it.wf(),
            it.position() == 0,
    {
        Self::new()
    }
}

} // verus!
