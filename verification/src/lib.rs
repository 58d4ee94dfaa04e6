//! The Fibonacci sequence in 64-bit integers, with machine-checked
//! contracts.
//!
//! Two ways of counting are kept apart on purpose: [`fibonacci::nth`], the
//! producer [`fibonacci::FibonacciIterator`] and [`fibonacci::ratio_at`] count
//! from zero (0, 1, 1, 2, ...), while [`fibonacci::sequence`] lists the terms
//! from the first 1 on (1, 1, 2, ...). Sums wrap around at 2^64 without
//! notice; index 93 is the last whose term is exact.
//!
//! * [`model`] defines the mathematical sequence and the predicates that the
//!   contracts are written in.
//! * [`theory`] proves how the sequence grows and how wrapping arithmetic
//!   follows it.
//! * [`membership`] proves that a perfect-square test decides whether a
//!   number is a Fibonacci number.
//! * [`divisibility`] proves that no term within reach of a 64-bit index
//!   wraps to zero.
//! * [`fibonacci`] holds the executable functions.

pub mod divisibility;
pub mod fibonacci;
pub mod membership;
pub mod model;
pub mod theory;
