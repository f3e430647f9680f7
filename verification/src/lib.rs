//! Miscellaneous mathematical utilities: an arbitrary-precision decimal
//! integer, a Fibonacci sequence generator, number-theory helpers, and a
//! parser for whitespace-delimited rows of numbers.

pub mod bigint;
pub mod fib;
pub mod grid;
pub mod numt;

pub use bigint::BigInt;
pub use bigint::BigIntError;
pub use fib::FibonacciIterator;
