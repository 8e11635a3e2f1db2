//! Prime counting with a segmented sieve of Eratosthenes.
//!
//! The crate computes the prime-counting function pi(n) -- the number of
//! primes less than or equal to `n` -- for `n` up to `u32::MAX`, using
//! memory proportional to the square root of `n`.  The two building blocks
//! are a packed bit array ([`bitset::BitSet`]) and the sieves themselves
//! ([`sieve::Eratosthenes`] and [`sieve::SegmentedEratosthenes`]).

pub mod bitset;
pub mod sieve;
